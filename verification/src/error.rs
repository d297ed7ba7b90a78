//! The library's error type and its human-readable messages.

use vstd::prelude::*;

use crate::text::{concat2, concat3};

verus! {

/// Every failure the library reports. Paths are carried as their text.
#[derive(Debug)]
pub enum Error {
    Io(String),
    Json(String),
    Toml(String),
    BadTarget(String),
    UnknownTarget(String),
    NoHome,
    InvalidSkillName(String),
    InvalidSourcePath(String),
    SourceNotDirectory(String),
    Conflict(String),
    NotInstalled(String),
    NotBookmarked(String),
    Mismatch(String),
    Git(String),
    GitRecovery(String),
    Msg(String),
}

/// The message each error displays.
pub open spec fn error_message(e: Error) -> Seq<char> {
    match e {
        Error::Io(s) => "io: "@ + s@,
        Error::Json(s) => "json: "@ + s@,
        Error::Toml(s) => "toml: "@ + s@,
        Error::BadTarget(s) => "无效的 target 语法: "@ + s@ + "（应为 global:<name> 或 project:<绝对路径>）"@,
        Error::UnknownTarget(s) => "未知的全局 target: "@ + s@,
        Error::NoHome => "无法确定用户主目录"@,
        Error::InvalidSkillName(s) => "无效的技能名，必须是单一普通路径组件: "@ + s@,
        Error::InvalidSourcePath(s) => "源路径不在缓存目录内: "@ + s@,
        Error::SourceNotDirectory(s) => "源路径不存在或不是目录: "@ + s@,
        Error::Conflict(s) => "目标已存在同名技能: "@ + s@,
        Error::NotInstalled(s) => "技能未安装: "@ + s@,
        Error::NotBookmarked(s) => "未收藏: "@ + s@,
        Error::Mismatch(s) => "磁盘实况与安装记录不一致: "@ + s@,
        Error::Git(s) => "git 操作失败: "@ + s@,
        Error::GitRecovery(s) => "git 回滚失败，缓存不可用: "@ + s@,
        Error::Msg(s) => s@,
    }
}

impl Error {
    /// The displayed message of this error.
    pub fn message(&self) -> (r: String)
        ensures
            r@ == error_message(*self),
    {
        match self {
            Error::Io(s) => concat2("io: ", s.as_str()),
            Error::Json(s) => concat2("json: ", s.as_str()),
            Error::Toml(s) => concat2("toml: ", s.as_str()),
            Error::BadTarget(s) => concat3(
                "无效的 target 语法: ",
                s.as_str(),
                "（应为 global:<name> 或 project:<绝对路径>）",
            ),
            Error::UnknownTarget(s) => concat2("未知的全局 target: ", s.as_str()),
            Error::NoHome => String::from_str("无法确定用户主目录"),
            Error::InvalidSkillName(s) => concat2(
                "无效的技能名，必须是单一普通路径组件: ",
                s.as_str(),
            ),
            Error::InvalidSourcePath(s) => concat2("源路径不在缓存目录内: ", s.as_str()),
            Error::SourceNotDirectory(s) => concat2("源路径不存在或不是目录: ", s.as_str()),
            Error::Conflict(s) => concat2("目标已存在同名技能: ", s.as_str()),
            Error::NotInstalled(s) => concat2("技能未安装: ", s.as_str()),
            Error::NotBookmarked(s) => concat2("未收藏: ", s.as_str()),
            Error::Mismatch(s) => concat2("磁盘实况与安装记录不一致: ", s.as_str()),
            Error::Git(s) => concat2("git 操作失败: ", s.as_str()),
            Error::GitRecovery(s) => concat2("git 回滚失败，缓存不可用: ", s.as_str()),
            Error::Msg(s) => String::from_str(s.as_str()),
        }
    }
}

} // verus!
