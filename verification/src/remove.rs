//! Removal checks: a record is only acted on when it is well formed, and
//! disk state is only deleted when it is what the record says — a link
//! into the cache for symlink installs, a marked real directory for copies.

use vstd::prelude::*;

use crate::error::Error;
use crate::install::{valid_skill_name, validate_skill_name};
use crate::paths::{is_absolute, join, path_join, paths_equal, same_path, Layout, TargetV};
use crate::registry::{Install, Method, Registry, TargetRec};
use crate::text::{concat2, concat3};
use crate::update::{debug_text, path_debug, path_debug_text, str_debug};

verus! {

/// How a removal ended.
#[derive(PartialEq, Eq, Structural, Debug, Clone, Copy)]
pub enum RemoveOutcome {
    /// The install was on disk and was deleted with its record.
    Removed,
    /// Nothing was on disk any more; only the record was dropped.
    RecordOnly,
}

/// Name of the ownership marker inside copy installs.
pub open spec fn copy_manifest_name() -> Seq<char> {
    ".skills-manifest"@
}

/// `Debug` text of a method.
pub open spec fn method_debug(m: Method) -> Seq<char> {
    match m {
        Method::Symlink => "Symlink"@,
        Method::Copy => "Copy"@,
    }
}

/// Exec form of [`method_debug`].
pub fn method_debug_text(m: Method) -> (r: String)
    ensures
        r@ == method_debug(m),
{
    match m {
        Method::Symlink => String::from_str("Symlink"),
        Method::Copy => String::from_str("Copy"),
    }
}

/// A record is acted on only with a valid skill name and, for projects,
/// an absolute root.
pub open spec fn record_ok(rec: Install) -> bool {
    valid_skill_name(rec.skill@) && match rec.target@ {
        TargetV::Project(root) => is_absolute(root),
        TargetV::Global(_) => true,
    }
}

/// Reject a corrupt record before any disk operation.
pub fn validate_record(rec: &Install) -> (r: Result<(), Error>)
    ensures
        match r {
            Ok(()) => record_ok(*rec),
            Err(e) => !record_ok(*rec) && (e matches Error::Mismatch(m) && if !valid_skill_name(
                rec.skill@,
            ) {
                m@ == "安装记录损坏：技能名 "@ + str_debug(rec.skill@) + " 非法，未执行磁盘删除"@
            } else {
                rec.target@ matches TargetV::Project(root) && m@ == "安装记录损坏：project root "@
                    + path_debug(root) + " 不是绝对路径，未执行磁盘删除"@
            }),
        },
{
    if validate_skill_name(rec.skill.as_str()).is_err() {
        let d = debug_text(rec.skill.as_str());
        return Err(
            Error::Mismatch(concat3("安装记录损坏：技能名 ", d.as_str(), " 非法，未执行磁盘删除")),
        );
    }
    match &rec.target {
        TargetRec::Project { root } => {
            if !crate::paths::is_absolute_str(root.as_str()) {
                let d = path_debug_text(root.as_str());
                return Err(
                    Error::Mismatch(
                        concat3(
                            "安装记录损坏：project root ",
                            d.as_str(),
                            " 不是绝对路径，未执行磁盘删除",
                        ),
                    ),
                );
            }
        },
        TargetRec::Global { .. } => {},
    }
    Ok(())
}

/// Whether a link target is the expected one (`Path` equality).
pub fn same_link_target(actual: &str, expected: &str) -> (r: bool)
    ensures
        r == same_path(actual@, expected@),
{
    paths_equal(actual, expected)
}

/// Where a symlink install points: `<cache of source>/<source path>`.
pub open spec fn link_expected(root: Seq<char>, rec: Install) -> Seq<char> {
    path_join(path_join(root, rec.source@), rec.source_path@)
}

/// Check that `dest` is a link (`actual` is where it points; `None` when
/// it is not a link) to the cache directory the record names.
pub fn verify_link(layout: &Layout, rec: &Install, dest: &str, actual: Option<&str>) -> (r:
    Result<(), Error>)
    ensures
        match actual {
            None => r matches Err(Error::Mismatch(m)) && m@ == path_debug(dest@) + " 不是链接，与安装方式 "@
                + method_debug(rec.method) + " 不符，已保留"@,
            Some(a) => if same_path(a@, link_expected(layout.root@, *rec)) {
                r is Ok
            } else {
                r matches Err(Error::Mismatch(m)) && m@ == path_debug(dest@) + " 指向 "@ + path_debug(
                    a@,
                ) + "，与记录不符，已保留"@
            },
        },
{
    match actual {
        None => {
            let d = path_debug_text(dest);
            let m = method_debug_text(rec.method);
            let head = concat3(d.as_str(), " 不是链接，与安装方式 ", m.as_str());
            Err(Error::Mismatch(concat2(head.as_str(), " 不符，已保留")))
        },
        Some(a) => {
            let cache = layout.cache_dir(rec.source.as_str());
            let expected = join(cache.as_str(), rec.source_path.as_str());
            if same_link_target(a, expected.as_str()) {
                Ok(())
            } else {
                let d = path_debug_text(dest);
                let da = path_debug_text(a);
                let head = concat3(d.as_str(), " 指向 ", da.as_str());
                Err(Error::Mismatch(concat2(head.as_str(), "，与记录不符，已保留")))
            }
        },
    }
}

/// What sits at the ownership marker's path inside a copy.
#[derive(PartialEq, Eq, Structural, Debug, Clone, Copy)]
pub enum MarkerState {
    File,
    NotFile,
    Missing,
}

/// Check that a copy install is a real directory (not a link) holding the
/// ownership marker file; anything else is left alone.
pub fn verify_copy_ownership(
    dest: &str,
    rec: &Install,
    is_dir: bool,
    is_link: bool,
    marker: MarkerState,
) -> (r: Result<(), Error>)
    ensures
        if !is_dir || is_link {
            r matches Err(Error::Mismatch(m)) && m@ == path_debug(dest@) + " 实况与安装方式 "@
                + method_debug(rec.method) + " 不符，已保留"@
        } else {
            match marker {
                MarkerState::File => r is Ok,
                MarkerState::NotFile => r matches Err(Error::Mismatch(m)) && m@ == path_debug(dest@)
                    + " 中的 "@ + copy_manifest_name() + " 不是文件，无法确认副本归属，已保留"@,
                MarkerState::Missing => r matches Err(Error::Mismatch(m)) && m@ == path_debug(dest@)
                    + " 缺少所有权标识 "@ + copy_manifest_name()
                    + "，非本工具安装的副本（或为旧版安装），已保留"@,
            }
        },
{
    let d = path_debug_text(dest);
    if !is_dir || is_link {
        let m = method_debug_text(rec.method);
        let head = concat3(d.as_str(), " 实况与安装方式 ", m.as_str());
        return Err(Error::Mismatch(concat2(head.as_str(), " 不符，已保留")));
    }
    match marker {
        MarkerState::File => Ok(()),
        MarkerState::NotFile => {
            let head = concat3(d.as_str(), " 中的 ", ".skills-manifest");
            Err(Error::Mismatch(concat2(head.as_str(), " 不是文件，无法确认副本归属，已保留")))
        },
        MarkerState::Missing => {
            let head = concat3(d.as_str(), " 缺少所有权标识 ", ".skills-manifest");
            Err(
                Error::Mismatch(
                    concat2(head.as_str(), "，非本工具安装的副本（或为旧版安装），已保留"),
                ),
            )
        },
    }
}


/// Close the removal of install `k`: its record leaves the registry (the
/// rest in order), and the outcome tells whether its files were still on
/// disk and were deleted, or only the record was left to drop.
pub fn close_removal(reg: &mut Registry, k: usize, on_disk: bool) -> (r: RemoveOutcome)
    requires
        k < old(reg).installs@.len(),
    ensures
        final(reg).installs@ == old(reg).installs@.remove(k as int),
        final(reg).version == old(reg).version,
        final(reg).sources == old(reg).sources,
        final(reg).favorites == old(reg).favorites,
        r == (if on_disk {
            RemoveOutcome::Removed
        } else {
            RemoveOutcome::RecordOnly
        }),
{
    reg.installs.remove(k);
    if on_disk {
        RemoveOutcome::Removed
    } else {
        RemoveOutcome::RecordOnly
    }
}

} // verus!
