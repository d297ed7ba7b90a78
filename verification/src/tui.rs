//! TUI application state and its reducer: four views in a Tab cycle, a
//! selection clamped to the rows of the current view, the auto-update
//! toggle of copy installs and the deletion of favorite rows.

use vstd::prelude::*;

use crate::favorites::{
    drop_name, fav_with_skills, is_curdir, is_single_skill_repo, lemma_filter_same_len,
    unbookmark, unbookmark_walk,
};
use crate::registry::FavSkillV;
use crate::text::views_of;
use crate::registry::{fav_skills_view, install_index, Favorite, Install, Method, Registry};
use crate::strmap::{has_key, key_index};

verus! {

/// The four views of the TUI.
#[derive(PartialEq, Eq, Structural, Debug, Clone, Copy)]
pub enum TuiView {
    Installed,
    Install,
    Sources,
    Favorites,
}

/// Input actions.
#[derive(PartialEq, Eq, Structural, Debug, Clone, Copy)]
pub enum Action {
    Up,
    Down,
    NextView,
    PrevView,
    ToggleAutoUpdate,
    DeleteFav,
    Quit,
}

/// A row of the favorites view: a source heading, or one of its skills.
#[derive(PartialEq, Debug)]
pub enum FavRow {
    Source(String),
    Skill(String, usize),
}

/// Model of a [`FavRow`].
pub enum FavRowV {
    Source(Seq<char>),
    Skill(Seq<char>, int),
}

impl View for FavRow {
    type V = FavRowV;

    open spec fn view(&self) -> FavRowV {
        match self {
            FavRow::Source(k) => FavRowV::Source(k@),
            FavRow::Skill(k, i) => FavRowV::Skill(k@, *i as int),
        }
    }
}

/// A single-skill favorite shows no skill rows.
pub open spec fn single_skill(f: Favorite) -> bool {
    f.skills@.len() == 1 && is_curdir(f.skills@[0].source_path@)
}

/// Rows of one favorite: its heading, then one row per skill unless single.
pub open spec fn rows_of(key: Seq<char>, f: Favorite) -> Seq<FavRowV> {
    seq![FavRowV::Source(key)] + if single_skill(f) {
        Seq::<FavRowV>::empty()
    } else {
        Seq::new(f.skills@.len(), |i: int| FavRowV::Skill(key, i))
    }
}

/// Rows of the favorites view, favorites in key order.
pub open spec fn fav_rows_spec(favs: Seq<(Seq<char>, Favorite)>) -> Seq<FavRowV>
    decreases favs.len(),
{
    if favs.len() == 0 {
        Seq::empty()
    } else {
        fav_rows_spec(favs.drop_last()) + rows_of(favs.last().0, favs.last().1)
    }
}

/// The view after Tab.
pub open spec fn next_view(v: TuiView) -> TuiView {
    match v {
        TuiView::Installed => TuiView::Install,
        TuiView::Install => TuiView::Sources,
        TuiView::Sources => TuiView::Favorites,
        TuiView::Favorites => TuiView::Installed,
    }
}

/// The view after Shift-Tab.
pub open spec fn prev_view(v: TuiView) -> TuiView {
    match v {
        TuiView::Installed => TuiView::Favorites,
        TuiView::Favorites => TuiView::Sources,
        TuiView::Sources => TuiView::Install,
        TuiView::Install => TuiView::Installed,
    }
}

/// The auto-update flag cycle: follow source, on, off, follow source.
pub open spec fn cycle_flag(f: Option<bool>) -> Option<bool> {
    match f {
        None => Some(true),
        Some(true) => Some(false),
        Some(false) => None,
    }
}

/// Application state.
pub struct AppState {
    pub registry: Registry,
    pub view: TuiView,
    pub selected: usize,
}

impl AppState {
    /// Number of rows of the current view.
    pub open spec fn row_count(&self) -> nat {
        match self.view {
            TuiView::Installed => self.registry.installs@.len(),
            TuiView::Favorites => fav_rows_spec(self.registry.favorites@).len(),
            _ => 0,
        }
    }

    /// A fresh state on the installed view.
    pub fn new(registry: Registry) -> (s: AppState)
        ensures
            s.registry == registry,
            s.view == TuiView::Installed,
            s.selected == 0,
    {
        AppState { registry, view: TuiView::Installed, selected: 0 }
    }

    /// Rows of the installed view: every install.
    pub fn visible_rows(&self) -> (r: Vec<&Install>)
        ensures
            r@.map_values(|x: &Install| *x) == self.registry.installs@,
    {
        let n = self.registry.installs.len();
        let mut out: Vec<&Install> = Vec::new();
        let mut k: usize = 0;
        while k < n
            invariant
                n == self.registry.installs@.len(),
                k <= n,
                out@.map_values(|x: &Install| *x) == self.registry.installs@.subrange(0, k as int),
            decreases n - k,
        {
            let ghost before = out@;
            out.push(&self.registry.installs[k]);
            assert(out@.map_values(|x: &Install| *x) =~= before.map_values(|x: &Install| *x).push(
                self.registry.installs@[k as int],
            ));
            assert(out@.map_values(|x: &Install| *x) =~= self.registry.installs@.subrange(
                0,
                k + 1,
            ));
            k = k + 1;
        }
        assert(self.registry.installs@.subrange(0, n as int) =~= self.registry.installs@);
        out
    }

    /// Rows of the favorites view.
    pub fn fav_rows(&self) -> (r: Vec<FavRow>)
        ensures
            r@.map_values(|x: FavRow| x@) == fav_rows_spec(self.registry.favorites@),
    {
        let favs = &self.registry.favorites;
        let n = favs.len();
        let mut rows: Vec<FavRow> = Vec::new();
        let mut k: usize = 0;
        while k < n
            invariant
                n == favs@.len(),
                favs == &self.registry.favorites,
                k <= n,
                rows@.map_values(|x: FavRow| x@) == fav_rows_spec(favs@.subrange(0, k as int)),
            decreases n - k,
        {
            let key = favs.key_at(k);
            let fav = favs.value_at(k);
            let ghost before = rows@.map_values(|x: FavRow| x@);
            assert(favs@.subrange(0, k + 1).drop_last() =~= favs@.subrange(0, k as int));
            let ghost r1 = rows@;
            rows.push(FavRow::Source(key.clone()));
            assert(rows@.map_values(|x: FavRow| x@) =~= r1.map_values(|x: FavRow| x@).push(
                FavRowV::Source(key@),
            ));
            assert(seq![FavRowV::Source(key@)] + Seq::new(0, |j: int| FavRowV::Skill(key@, j))
                =~= seq![FavRowV::Source(key@)]);
            let single = is_single_skill_repo(fav);
            if !single {
                let m = fav.skills.len();
                let mut i: usize = 0;
                while i < m
                    invariant
                        m == fav.skills@.len(),
                        i <= m,
                        rows@.map_values(|x: FavRow| x@) == before + seq![FavRowV::Source(key@)]
                            + Seq::new(i as nat, |j: int| FavRowV::Skill(key@, j)),
                    decreases m - i,
                {
                    let ghost b2 = rows@.map_values(|x: FavRow| x@);
                    let ghost r0 = rows@;
                    rows.push(FavRow::Skill(key.clone(), i));
                    assert(rows@.map_values(|x: FavRow| x@) =~= r0.map_values(|x: FavRow| x@).push(
                        FavRowV::Skill(key@, i as int),
                    ));
                    assert(rows@.map_values(|x: FavRow| x@) =~= before + seq![FavRowV::Source(key@)]
                        + Seq::new((i + 1) as nat, |j: int| FavRowV::Skill(key@, j)));
                    i = i + 1;
                }
                assert(rows@.map_values(|x: FavRow| x@) =~= fav_rows_spec(
                    favs@.subrange(0, k + 1),
                ));
            } else {
                assert(rows@.map_values(|x: FavRow| x@) =~= fav_rows_spec(
                    favs@.subrange(0, k + 1),
                ));
            }
            k = k + 1;
        }
        assert(favs@.subrange(0, n as int) =~= favs@);
        rows
    }
}


/// `a - 1`, or 0.
pub open spec fn sat_dec(a: int) -> int {
    if a > 0 {
        a - 1
    } else {
        0
    }
}

/// The smaller of two integers.
pub open spec fn min_int(a: int, b: int) -> int {
    if a <= b {
        a
    } else {
        b
    }
}

/// Every row of [`fav_rows_spec`] names an existing favorite and skill.
pub proof fn lemma_fav_rows_valid(favs: Seq<(Seq<char>, Favorite)>, r: int)
    requires
        0 <= r < fav_rows_spec(favs).len(),
    ensures
        match fav_rows_spec(favs)[r] {
            FavRowV::Source(k) => has_key(favs, k),
            FavRowV::Skill(k, i) => exists|j: int|
                0 <= j < favs.len() && favs[j].0 == k && 0 <= i < favs[j].1.skills@.len(),
        },
    decreases favs.len(),
{
    let pre = fav_rows_spec(favs.drop_last());
    let last = favs.len() - 1;
    if r < pre.len() {
        lemma_fav_rows_valid(favs.drop_last(), r);
        assert(fav_rows_spec(favs)[r] == pre[r]);
        match pre[r] {
            FavRowV::Source(k) => {
                let j = choose|j: int| 0 <= j < favs.drop_last().len() && #[trigger] favs.drop_last()[j].0 == k;
                assert(favs[j].0 == k);
            },
            FavRowV::Skill(k, i) => {
                let j = choose|j: int|
                    0 <= j < favs.drop_last().len() && favs.drop_last()[j].0 == k && 0 <= i
                        < favs.drop_last()[j].1.skills@.len();
                assert(favs[j] == favs.drop_last()[j]);
            },
        }
    } else {
        assert(favs[last].0 == favs.last().0);
    }
}

/// A skill named as one of `s` is removed by [`drop_name`].
pub proof fn lemma_drop_name_shrinks(s: Seq<FavSkillV>, i: int)
    requires
        0 <= i < s.len(),
    ensures
        drop_name(s, s[i].name).len() < s.len(),
{
    let p = |x: FavSkillV| x.name != s[i].name;
    s.lemma_filter_len(p);
    if s.filter(p).len() == s.len() {
        lemma_filter_same_len(s, p);
        assert(s.filter(p)[i] == s[i]);
        s.lemma_filter_pred(p, i);
    }
}

impl AppState {
    /// Toggle the auto-update flag of the selected copy install.
    fn toggle_selected(&mut self)
        requires
            old(self).registry.wf(),
        ensures
            final(self).view == old(self).view,
            final(self).selected == old(self).selected,
            final(self).registry.version == old(self).registry.version,
            final(self).registry.sources == old(self).registry.sources,
            final(self).registry.favorites == old(self).registry.favorites,
            ({
                let ins = old(self).registry.installs@;
                let sel = old(self).selected as int;
                if old(self).view == TuiView::Installed && sel < ins.len() && ins[sel].method
                    == Method::Copy {
                    let k = install_index(ins, ins[sel].skill@, ins[sel].target@);
                    0 <= k < ins.len() && final(self).registry.installs@ == ins.update(
                        k,
                        Install { auto_update: cycle_flag(ins[k].auto_update), ..ins[k] },
                    )
                } else {
                    final(self).registry.installs == old(self).registry.installs
                }
            }),
    {
        if self.view != TuiView::Installed || self.selected >= self.registry.installs.len() {
            return ;
        }
        let row = &self.registry.installs[self.selected];
        if row.method == Method::Symlink {
            return ;
        }
        let skill = row.skill.clone();
        let target = row.target.clone();
        match self.registry.position(skill.as_str(), &target) {
            None => {
                proof {
                    crate::registry::lemma_install_index_found(
                        self.registry.installs@,
                        skill@,
                        target@,
                        self.selected as int,
                    );
                }
            },
            Some(k) => {
                let mut inst = self.registry.installs.remove(k);
                inst.auto_update = match inst.auto_update {
                    None => Some(true),
                    Some(true) => Some(false),
                    Some(false) => None,
                };
                self.registry.installs.insert(k, inst);
                assert(self.registry.installs@ =~= old(self).registry.installs@.update(
                    k as int,
                    Install {
                        auto_update: cycle_flag(old(self).registry.installs@[k as int].auto_update),
                        ..old(self).registry.installs@[k as int]
                    },
                ));
            },
        }
    }

    /// Delete the selected favorite row: a heading removes the whole
    /// bookmark, a skill row that skill; the selection is clamped.
    fn delete_selected_fav(&mut self)
        requires
            old(self).registry.wf(),
        ensures
            final(self).registry.wf(),
            final(self).view == old(self).view,
            final(self).registry.version == old(self).registry.version,
            final(self).registry.sources == old(self).registry.sources,
            final(self).registry.installs == old(self).registry.installs,
            ({
                let favs = old(self).registry.favorites@;
                let rows = fav_rows_spec(favs);
                let sel = old(self).selected as int;
                if old(self).view == TuiView::Favorites && sel < rows.len() {
                    &&& match rows[sel] {
                        FavRowV::Source(k) => final(self).registry.favorites@ == favs.remove(
                            key_index(favs, k),
                        ),
                        FavRowV::Skill(k, i) => {
                            let j = key_index(favs, k);
                            let of = favs[j].1;
                            let t = drop_name(fav_skills_view(of.skills@), of.skills@[i].name@);
                            if t.len() == 0 {
                                final(self).registry.favorites@ == favs.remove(j)
                            } else {
                                exists|f: Favorite|
                                    fav_with_skills(f, of, t) && final(self).registry.favorites@
                                        == favs.update(j, (k, f))
                            }
                        },
                    }
                    &&& final(self).selected == min_int(
                        sel,
                        sat_dec(fav_rows_spec(final(self).registry.favorites@).len() as int),
                    )
                } else {
                    final(self).registry == old(self).registry && final(self).selected == old(
                        self,
                    ).selected
                }
            }),
    {
        if self.view != TuiView::Favorites {
            return ;
        }
        let rows = self.fav_rows();
        if self.selected >= rows.len() {
            return ;
        }
        let ghost favs = self.registry.favorites@;
        proof {
            lemma_fav_rows_valid(favs, self.selected as int);
            assert(rows@[self.selected as int]@ == fav_rows_spec(favs)[self.selected as int]);
        }
        match &rows[self.selected] {
            FavRow::Source(key) => {
                let empty: Vec<String> = Vec::new();
                let _ = unbookmark(&mut self.registry, key.as_str(), &empty);
            },
            FavRow::Skill(key, i) => {
                let ghost j = choose|j: int|
                    0 <= j < favs.len() && favs[j].0 == key@ && 0 <= *i < favs[j].1.skills@.len();
                proof {
                    crate::strmap::lemma_key_index(favs, j);
                }
                let f = self.registry.favorites.get(key.as_str()).unwrap();
                let name = f.skills[*i].name.clone();
                let mut names: Vec<String> = Vec::new();
                names.push(name);
                let ghost s = fav_skills_view(f.skills@);
                proof {
                    lemma_drop_name_shrinks(s, *i as int);
                    assert(views_of(names@) =~= seq![s[*i as int].name]);
                    assert(views_of(names@).drop_last() =~= Seq::<Seq<char>>::empty());
                    assert(unbookmark_walk(s, views_of(names@).drop_last()) == (s, -1int));
                    assert(unbookmark_walk(s, views_of(names@)) == (
                        drop_name(s, s[*i as int].name),
                        -1int,
                    ));
                    assert(*f == favs[j].1);
                }
                let _ = unbookmark(&mut self.registry, key.as_str(), &names);
            },
        }
        let after = self.fav_rows();
        let max = if after.len() > 0 {
            after.len() - 1
        } else {
            0
        };
        if self.selected > max {
            self.selected = max;
        }
    }

    /// Apply one action.
    pub fn reduce(&mut self, action: Action)
        requires
            old(self).registry.wf(),
            action == Action::Down ==> old(self).selected < usize::MAX,
        ensures
            final(self).registry.wf(),
            match action {
                Action::Up => final(self).registry == old(self).registry && final(self).view
                    == old(self).view && final(self).selected == sat_dec(old(self).selected as int),
                Action::Down => final(self).registry == old(self).registry && final(self).view
                    == old(self).view && final(self).selected == min_int(
                    old(self).selected + 1,
                    sat_dec(old(self).row_count() as int),
                ),
                Action::NextView => final(self).registry == old(self).registry && final(self).view
                    == next_view(old(self).view) && final(self).selected == 0,
                Action::PrevView => final(self).registry == old(self).registry && final(self).view
                    == prev_view(old(self).view) && final(self).selected == 0,
                Action::ToggleAutoUpdate => {
                    let ins = old(self).registry.installs@;
                    let sel = old(self).selected as int;
                    &&& final(self).view == old(self).view
                    &&& final(self).selected == old(self).selected
                    &&& final(self).registry.version == old(self).registry.version
                    &&& final(self).registry.sources == old(self).registry.sources
                    &&& final(self).registry.favorites == old(self).registry.favorites
                    &&& if old(self).view == TuiView::Installed && sel < ins.len() && ins[sel].method
                        == Method::Copy {
                        let k = install_index(ins, ins[sel].skill@, ins[sel].target@);
                        0 <= k < ins.len() && final(self).registry.installs@ == ins.update(
                            k,
                            Install { auto_update: cycle_flag(ins[k].auto_update), ..ins[k] },
                        )
                    } else {
                        final(self).registry.installs == old(self).registry.installs
                    }
                },
                Action::DeleteFav => {
                    let favs = old(self).registry.favorites@;
                    let rows = fav_rows_spec(favs);
                    let sel = old(self).selected as int;
                    &&& final(self).view == old(self).view
                    &&& final(self).registry.version == old(self).registry.version
                    &&& final(self).registry.sources == old(self).registry.sources
                    &&& final(self).registry.installs == old(self).registry.installs
                    &&& if old(self).view == TuiView::Favorites && sel < rows.len() {
                        &&& match rows[sel] {
                            FavRowV::Source(k) => final(self).registry.favorites@ == favs.remove(
                                key_index(favs, k),
                            ),
                            FavRowV::Skill(k, i) => {
                                let j = key_index(favs, k);
                                let of = favs[j].1;
                                let t = drop_name(
                                    fav_skills_view(of.skills@),
                                    of.skills@[i].name@,
                                );
                                if t.len() == 0 {
                                    final(self).registry.favorites@ == favs.remove(j)
                                } else {
                                    exists|f: Favorite|
                                        fav_with_skills(f, of, t)
                                            && final(self).registry.favorites@ == favs.update(
                                            j,
                                            (k, f),
                                        )
                                }
                            },
                        }
                        &&& final(self).selected == min_int(
                            sel,
                            sat_dec(fav_rows_spec(final(self).registry.favorites@).len() as int),
                        )
                    } else {
                        final(self).registry == old(self).registry && final(self).selected == old(
                            self,
                        ).selected
                    }
                },
                Action::Quit => final(self).registry == old(self).registry && final(self).view
                    == old(self).view && final(self).selected == old(self).selected,
            },
    {
        match action {
            Action::Up => {
                if self.selected > 0 {
                    self.selected = self.selected - 1;
                }
            },
            Action::Down => {
                let rows = match self.view {
                    TuiView::Installed => self.registry.installs.len(),
                    TuiView::Favorites => self.fav_rows().len(),
                    TuiView::Install | TuiView::Sources => 0,
                };
                let max = if rows > 0 {
                    rows - 1
                } else {
                    0
                };
                let next = self.selected + 1;
                self.selected = if next < max {
                    next
                } else {
                    max
                };
            },
            Action::NextView => {
                self.view = match self.view {
                    TuiView::Installed => TuiView::Install,
                    TuiView::Install => TuiView::Sources,
                    TuiView::Sources => TuiView::Favorites,
                    TuiView::Favorites => TuiView::Installed,
                };
                self.selected = 0;
            },
            Action::PrevView => {
                self.view = match self.view {
                    TuiView::Installed => TuiView::Favorites,
                    TuiView::Favorites => TuiView::Sources,
                    TuiView::Sources => TuiView::Install,
                    TuiView::Install => TuiView::Installed,
                };
                self.selected = 0;
            },
            Action::ToggleAutoUpdate => {
                self.toggle_selected();
            },
            Action::DeleteFav => {
                self.delete_selected_fav();
            },
            Action::Quit => {},
        }
    }
}


/// A key as the event loop reads it.
#[derive(PartialEq, Eq, Structural, Debug, Clone, Copy)]
pub enum Key {
    Char(char),
    Up,
    Down,
    Tab,
    BackTab,
    Esc,
    Other,
}

/// What the event loop does with a key.
#[derive(PartialEq, Eq, Structural, Debug, Clone, Copy)]
pub enum Command {
    /// Leave the TUI.
    Quit,
    /// Apply an action to the state.
    Apply(Action),
    /// Run the wizard installing from a source.
    InstallFromSource,
    /// Run the wizard installing from the selected favorite.
    InstallFromFavorite,
    /// Run the bookmarking wizard.
    Bookmark,
    /// Nothing.
    Ignore,
}

/// The key bindings: `i` installs (from favorites on the favorites view),
/// `f` bookmarks on the favorites view, `q`/Esc quit, arrows or `k`/`j`
/// move, Tab / Shift-Tab switch views, `a` toggles auto-update, `d`
/// deletes a favorite row.
pub open spec fn key_command_spec(key: Key, view: TuiView) -> Command {
    match key {
        Key::Char('i') => if view == TuiView::Favorites {
            Command::InstallFromFavorite
        } else {
            Command::InstallFromSource
        },
        Key::Char('f') => if view == TuiView::Favorites {
            Command::Bookmark
        } else {
            Command::Ignore
        },
        Key::Char('q') | Key::Esc => Command::Quit,
        Key::Up | Key::Char('k') => Command::Apply(Action::Up),
        Key::Down | Key::Char('j') => Command::Apply(Action::Down),
        Key::Tab => Command::Apply(Action::NextView),
        Key::BackTab => Command::Apply(Action::PrevView),
        Key::Char('a') => Command::Apply(Action::ToggleAutoUpdate),
        Key::Char('d') => Command::Apply(Action::DeleteFav),
        _ => Command::Ignore,
    }
}

/// What a key does on a view.
pub fn key_command(key: Key, view: TuiView) -> (c: Command)
    ensures
        c == key_command_spec(key, view),
{
    match key {
        Key::Char('i') => if view == TuiView::Favorites {
            Command::InstallFromFavorite
        } else {
            Command::InstallFromSource
        },
        Key::Char('f') => if view == TuiView::Favorites {
            Command::Bookmark
        } else {
            Command::Ignore
        },
        Key::Char('q') | Key::Esc => Command::Quit,
        Key::Up | Key::Char('k') => Command::Apply(Action::Up),
        Key::Down | Key::Char('j') => Command::Apply(Action::Down),
        Key::Tab => Command::Apply(Action::NextView),
        Key::BackTab => Command::Apply(Action::PrevView),
        Key::Char('a') => Command::Apply(Action::ToggleAutoUpdate),
        Key::Char('d') => Command::Apply(Action::DeleteFav),
        _ => Command::Ignore,
    }
}

/// The targets a wizard offers, with their labels: each configured global
/// target in name order, then the project in the working directory `cwd`.
pub fn target_choices(targets: &crate::strmap::StrMap<String>, cwd: &str) -> (r: Vec<(String, crate::paths::Target)>)
    ensures
        r@.len() == targets@.len() + 1,
        forall|i: int|
            0 <= i < targets@.len() ==> (#[trigger] r@[i]).0@ == "global:"@ + targets@[i].0
                && r@[i].1@ == crate::paths::TargetV::Global(targets@[i].0),
        r@[targets@.len() as int].0@ == "project:"@ + cwd@,
        r@[targets@.len() as int].1@ == crate::paths::TargetV::Project(cwd@),
{
    let n = targets.len();
    let mut out: Vec<(String, crate::paths::Target)> = Vec::new();
    let mut i: usize = 0;
    while i < n
        invariant
            n == targets@.len(),
            i <= n,
            out@.len() == i,
            forall|j: int|
                0 <= j < i ==> (#[trigger] out@[j]).0@ == "global:"@ + targets@[j].0 && out@[j].1@
                    == crate::paths::TargetV::Global(targets@[j].0),
        decreases n - i,
    {
        let name = targets.key_at(i);
        out.push((crate::text::concat2("global:", name.as_str()), crate::paths::Target::Global { name: name.clone() }));
        i = i + 1;
    }
    out.push((crate::text::concat2("project:", cwd), crate::paths::Target::Project { root: String::from_str(cwd) }));
    out
}

/// The names chosen by a multi-select: `names[i]` for each `i` of `idx`.
pub fn chosen_names(names: &Vec<String>, idx: &Vec<usize>) -> (r: Vec<String>)
    requires
        forall|k: int| 0 <= k < idx@.len() ==> idx@[k] < names@.len(),
    ensures
        r@.len() == idx@.len(),
        forall|k: int| 0 <= k < idx@.len() ==> (#[trigger] r@[k])@ == names@[idx@[k] as int]@,
{
    let n = idx.len();
    let mut out: Vec<String> = Vec::new();
    let mut k: usize = 0;
    while k < n
        invariant
            n == idx@.len(),
            forall|j: int| 0 <= j < idx@.len() ==> idx@[j] < names@.len(),
            k <= n,
            out@.len() == k,
            forall|j: int| 0 <= j < k ==> (#[trigger] out@[j])@ == names@[idx@[j] as int]@,
        decreases n - k,
    {
        out.push(names[idx[k]].clone());
        k = k + 1;
    }
    out
}

/// What the bookmarking wizard bookmarks: choosing every scanned skill
/// bookmarks the whole repository (no names); otherwise the chosen names.
pub fn bookmark_picks(names: &Vec<String>, idx: &Vec<usize>) -> (r: Vec<String>)
    requires
        forall|k: int| 0 <= k < idx@.len() ==> idx@[k] < names@.len(),
    ensures
        idx@.len() == names@.len() ==> r@.len() == 0,
        idx@.len() != names@.len() ==> r@.len() == idx@.len() && forall|k: int|
            0 <= k < idx@.len() ==> (#[trigger] r@[k])@ == names@[idx@[k] as int]@,
{
    if idx.len() == names.len() {
        Vec::new()
    } else {
        chosen_names(names, idx)
    }
}

/// What installing from the selected favorite row installs.
pub enum FavPick {
    /// No row is selected.
    Nothing,
    /// These skills of this favorite.
    Skills(String, Vec<String>),
    /// Ask which of these skills of this favorite.
    Ask(String, Vec<String>),
}

/// The names of a favorite's skills.
fn skill_names(f: &Favorite) -> (r: Vec<String>)
    ensures
        views_of(r@) == fav_skills_view(f.skills@).map_values(|s: FavSkillV| s.name),
{
    let n = f.skills.len();
    let mut out: Vec<String> = Vec::new();
    let mut i: usize = 0;
    while i < n
        invariant
            n == f.skills@.len(),
            i <= n,
            views_of(out@) == fav_skills_view(f.skills@).map_values(|s: FavSkillV| s.name).subrange(0, i as int),
        decreases n - i,
    {
        let ghost before = views_of(out@);
        out.push(f.skills[i].name.clone());
        assert(views_of(out@) =~= before.push(f.skills@[i as int].name@));
        assert(fav_skills_view(f.skills@).map_values(|s: FavSkillV| s.name).subrange(0, i + 1)
            =~= fav_skills_view(f.skills@).map_values(|s: FavSkillV| s.name).subrange(0, i as int).push(f.skills@[i as int].name@));
        i = i + 1;
    }
    assert(fav_skills_view(f.skills@).map_values(|s: FavSkillV| s.name).subrange(0, n as int)
        =~= fav_skills_view(f.skills@).map_values(|s: FavSkillV| s.name));
    out
}

impl AppState {
    /// What installing from the selected favorite row installs: a skill
    /// row its skill; a source row its only skill when it is a
    /// single-skill repository, else the user picks among its skills.
    pub fn fav_pick(&self) -> (r: FavPick)
        requires
            self.registry.wf(),
        ensures
            ({
                let favs = self.registry.favorites@;
                let rows = fav_rows_spec(favs);
                if self.selected >= rows.len() {
                    r is Nothing
                } else {
                    match rows[self.selected as int] {
                        FavRowV::Skill(k, i) => {
                            let f = crate::strmap::lookup(favs, k)->0;
                            r matches FavPick::Skills(key, names) && key@ == k && views_of(names@)
                                == seq![f.skills@[i].name@]
                        },
                        FavRowV::Source(k) => {
                            let f = crate::strmap::lookup(favs, k)->0;
                            if single_skill(f) {
                                r matches FavPick::Skills(key, names) && key@ == k && views_of(
                                    names@,
                                ) == seq![f.skills@[0].name@]
                            } else {
                                r matches FavPick::Ask(key, names) && key@ == k && views_of(names@)
                                    == fav_skills_view(f.skills@).map_values(|s: FavSkillV| s.name)
                            }
                        },
                    }
                }
            }),
    {
        let rows = self.fav_rows();
        if self.selected >= rows.len() {
            return FavPick::Nothing;
        }
        let ghost favs = self.registry.favorites@;
        proof {
            assert(rows@.map_values(|x: FavRow| x@)[self.selected as int] == rows@[self.selected as int]@);
            lemma_fav_rows_valid(favs, self.selected as int);
        }
        match &rows[self.selected] {
            FavRow::Skill(key, i) => {
                proof {
                    let j = choose|j: int| 0 <= j < favs.len() && favs[j].0 == key@ && 0 <= *i < favs[j].1.skills@.len();
                    crate::strmap::lemma_key_index(favs, j);
                }
                match self.registry.favorites.get(key.as_str()) {
                    Some(f) => {
                        let mut v = Vec::new();
                        v.push(f.skills[*i].name.clone());
                        assert(views_of(v@) =~= seq![f.skills@[*i as int].name@]);
                        FavPick::Skills(key.clone(), v)
                    },
                    None => FavPick::Nothing,
                }
            },
            FavRow::Source(key) => {
                match self.registry.favorites.get(key.as_str()) {
                    Some(f) => {
                        if is_single_skill_repo(f) {
                            let mut v = Vec::new();
                            v.push(f.skills[0].name.clone());
                            assert(views_of(v@) =~= seq![f.skills@[0].name@]);
                            FavPick::Skills(key.clone(), v)
                        } else {
                            FavPick::Ask(key.clone(), skill_names(f))
                        }
                    },
                    None => FavPick::Nothing,
                }
            },
        }
    }
}


/// Shift-Tab undoes Tab and Tab undoes Shift-Tab.
pub proof fn law_tab_inverse(v: TuiView)
    ensures
        prev_view(next_view(v)) == v,
        next_view(prev_view(v)) == v,
{
}

/// Tab walks all four views and is back after four presses.
pub proof fn law_tab_cycle(v: TuiView)
    ensures
        next_view(next_view(next_view(next_view(v)))) == v,
        next_view(v) != v,
        next_view(next_view(v)) != v,
        next_view(next_view(next_view(v))) != v,
{
}

/// Toggling a copy's auto-update flag goes on, off, back to following its
/// source: three toggles restore it.
pub proof fn law_toggle_cycle(f: Option<bool>)
    ensures
        cycle_flag(cycle_flag(cycle_flag(f))) == f,
        cycle_flag(f) != f,
{
}

/// Moving down never passes the last row, and moves by one below it.
pub proof fn law_down_clamped(selected: int, rows: int)
    requires
        0 <= selected,
        0 <= rows,
    ensures
        min_int(selected + 1, sat_dec(rows)) <= sat_dec(rows),
        selected < sat_dec(rows) ==> min_int(selected + 1, sat_dec(rows)) == selected + 1,
        rows > 0 ==> min_int(selected + 1, sat_dec(rows)) < rows,
{
}


/// The auto-update column of an install: on, off, or following its source.
pub open spec fn auto_label(o: Option<bool>) -> Seq<char> {
    match o {
        Some(true) => "开"@,
        Some(false) => "关"@,
        None => "跟随包级"@,
    }
}

/// Strings joined with `,`.
pub open spec fn join_comma(t: Seq<Seq<char>>) -> Seq<char>
    decreases t.len(),
{
    if t.len() == 0 {
        Seq::empty()
    } else if t.len() == 1 {
        t[0]
    } else {
        join_comma(t.drop_last()) + ","@ + t.last()
    }
}

/// The cells of an install in the installed view: skill, method, target,
/// tags, auto-update.
pub open spec fn install_cells_spec(i: Install) -> Seq<Seq<char>> {
    seq![
        i.skill@,
        crate::remove::method_debug(i.method),
        crate::update::target_debug(i.target@),
        join_comma(views_of(i.tags@)),
        auto_label(i.auto_update),
    ]
}

/// The cells of an install in the installed view.
pub fn install_cells(i: &Install) -> (r: Vec<String>)
    ensures
        views_of(r@) == install_cells_spec(*i),
{
    let ghost tv = views_of(i.tags@);
    let n = i.tags.len();
    let mut tags = String::new();
    let mut k: usize = 0;
    assert(tv.subrange(0, 0) =~= Seq::<Seq<char>>::empty());
    while k < n
        invariant
            n == i.tags@.len(),
            tv == views_of(i.tags@),
            k <= n,
            tags@ == join_comma(tv.subrange(0, k as int)),
        decreases n - k,
    {
        assert(tv.subrange(0, k + 1).drop_last() =~= tv.subrange(0, k as int));
        if k == 0 {
            assert(tv.subrange(0, 1) =~= seq![tv[0]]);
            tags = i.tags[k].clone();
        } else {
            tags = crate::text::concat3(tags.as_str(), ",", i.tags[k].as_str());
        }
        k = k + 1;
    }
    assert(tv.subrange(0, n as int) =~= tv);
    let auto = match i.auto_update {
        Some(true) => String::from_str("开"),
        Some(false) => String::from_str("关"),
        None => String::from_str("跟随包级"),
    };
    let mut r = Vec::new();
    r.push(i.skill.clone());
    r.push(crate::remove::method_debug_text(i.method));
    r.push(crate::update::target_debug_text(&i.target));
    r.push(tags);
    r.push(auto);
    assert(views_of(r@) =~= install_cells_spec(*i));
    r
}

/// The line of a source in the sources view.
pub open spec fn source_line_spec(key: Seq<char>, r: crate::registry::SourceRecord) -> Seq<char> {
    key + "\t"@ + crate::text::take_chars(r.commit@, 7) + "\tauto_update="@
        + crate::commands::opt_bool_debug(r.auto_update) + "\n"@
}

/// The line of a source in the sources view.
pub fn source_line(key: &str, r: &crate::registry::SourceRecord) -> (s: String)
    ensures
        s@ == source_line_spec(key@, *r),
{
    let c = crate::text::take_chars_text(r.commit.as_str(), 7);
    let a = match r.auto_update {
        None => String::from_str("None"),
        Some(true) => String::from_str("Some(true)"),
        Some(false) => String::from_str("Some(false)"),
    };
    let s = crate::text::concat3(key, "\t", c.as_str());
    let s = crate::text::concat3(s.as_str(), "\tauto_update=", a.as_str());
    crate::text::concat2(s.as_str(), "\n")
}

/// The cells of a favorites-view row: a source row shows its key, its only
/// skill's purpose (single-skill repository) or its number of skills, and
/// the bookmark date; a skill row shows the indented name and purpose.
pub open spec fn fav_cells_spec(favs: Seq<(Seq<char>, Favorite)>, row: FavRowV) -> Option<Seq<Seq<char>>> {
    match row {
        FavRowV::Source(k) => match crate::strmap::lookup(favs, k) {
            None => None,
            Some(f) => Some(seq![
                k,
                if single_skill(f) {
                    f.skills@[0].description@
                } else {
                    crate::text::decimal(f.skills@.len()) + " 个技能"@
                },
                crate::text::take_chars(f.bookmarked_at@, 10),
            ]),
        },
        FavRowV::Skill(k, i) => match crate::strmap::lookup(favs, k) {
            None => None,
            Some(f) => if 0 <= i < f.skills@.len() {
                Some(seq!["  "@ + f.skills@[i].name@, f.skills@[i].description@, Seq::empty()])
            } else {
                None
            },
        },
    }
}

/// The cells of a favorites-view row (`None` for a row naming nothing).
pub fn fav_cells(reg: &Registry, row: &FavRow) -> (r: Option<Vec<String>>)
    requires
        reg.wf(),
    ensures
        match r {
            Some(v) => fav_cells_spec(reg.favorites@, row@) == Some(views_of(v@)),
            None => fav_cells_spec(reg.favorites@, row@) is None,
        },
{
    match row {
        FavRow::Source(k) => match reg.favorites.get(k.as_str()) {
            None => None,
            Some(f) => {
                let middle = if is_single_skill_repo(f) {
                    f.skills[0].description.clone()
                } else {
                    let n = crate::text::decimal_text(f.skills.len());
                    crate::text::concat2(n.as_str(), " 个技能")
                };
                let mut v = Vec::new();
                v.push(k.clone());
                v.push(middle);
                v.push(crate::text::take_chars_text(f.bookmarked_at.as_str(), 10));
                assert(views_of(v@) =~= fav_cells_spec(reg.favorites@, row@)->0);
                Some(v)
            },
        },
        FavRow::Skill(k, i) => match reg.favorites.get(k.as_str()) {
            None => None,
            Some(f) => if *i < f.skills.len() {
                let mut v = Vec::new();
                v.push(crate::text::concat2("  ", f.skills[*i].name.as_str()));
                v.push(f.skills[*i].description.clone());
                v.push(String::new());
                assert(views_of(v@) =~= fav_cells_spec(reg.favorites@, row@)->0);
                Some(v)
            } else {
                None
            },
        },
    }
}


/// The movement keys work the same on every view: the Down arrow and `j`
/// both move the selection down, the Up arrow and `k` both move it up, so
/// Down and Up never do the same; Tab and Shift-Tab switch to the next and
/// the previous view; `q` and Esc leave.
pub proof fn law_movement_keys(v: TuiView)
    ensures
        key_command_spec(Key::Down, v) == Command::Apply(Action::Down),
        key_command_spec(Key::Char('j'), v) == key_command_spec(Key::Down, v),
        key_command_spec(Key::Up, v) == Command::Apply(Action::Up),
        key_command_spec(Key::Char('k'), v) == key_command_spec(Key::Up, v),
        key_command_spec(Key::Down, v) != key_command_spec(Key::Up, v),
        key_command_spec(Key::Tab, v) == Command::Apply(Action::NextView),
        key_command_spec(Key::BackTab, v) == Command::Apply(Action::PrevView),
        key_command_spec(Key::Char('q'), v) == Command::Quit,
        key_command_spec(Key::Esc, v) == Command::Quit,
{
}

} // verus!
