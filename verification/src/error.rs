//! Errors of the library.

use vstd::prelude::*;
use vstd::string::*;

verus! {

/// A failed operation of the operating system: its error code, where the
/// system gave one, and its message.
#[derive(Debug, Clone)]
pub struct IoFault {
    pub code: Option<i32>,
    pub message: String,
}

/// What can go wrong in the application.
#[derive(Debug)]
pub enum AppError {
    Io(IoFault),
    /// A file could not be written or read as JSON.
    Json(String),
    Store(String),
    Safety(String),
    Migrate(String),
    Junction(String),
    /// The user cancelled the task.
    Cancelled,
    /// Another task is in the way.
    Conflict(String),
    Win32(String),
    Vss(String),
    /// The scan that was asked about is no longer the current one.
    StaleScan,
}

/// The result of an operation of the application.
pub type AppResult<T> = Result<T, AppError>;

impl AppError {
    /// The text of the error.
    pub open spec fn text(&self) -> Seq<char> {
        match self {
            AppError::Io(f) => "IO 错误: "@ + f.message@,
            AppError::Json(m) => "序列化错误: "@ + m@,
            AppError::Store(m) => "store 错误: "@ + m@,
            AppError::Safety(m) => "safety 预检失败: "@ + m@,
            AppError::Migrate(m) => "迁移失败: "@ + m@,
            AppError::Junction(m) => "junction 错误: "@ + m@,
            AppError::Cancelled => "用户取消"@,
            AppError::Conflict(m) => "任务冲突: "@ + m@,
            AppError::Win32(m) => "Win32 错误: "@ + m@,
            AppError::Vss(m) => "VSS 错误: "@ + m@,
            AppError::StaleScan => "stale_scan"@,
        }
    }

    /// The text of the error, as it is shown to the user.
    pub fn describe(&self) -> (r: String)
        ensures
            r@ == self.text(),
    {
        match self {
            AppError::Io(f) => prefixed_text("IO 错误: ", f.message.as_str()),
            AppError::Json(m) => prefixed_text("序列化错误: ", m.as_str()),
            AppError::Store(m) => prefixed_text("store 错误: ", m.as_str()),
            AppError::Safety(m) => prefixed_text("safety 预检失败: ", m.as_str()),
            AppError::Migrate(m) => prefixed_text("迁移失败: ", m.as_str()),
            AppError::Junction(m) => prefixed_text("junction 错误: ", m.as_str()),
            AppError::Cancelled => String::from_str("用户取消"),
            AppError::Conflict(m) => prefixed_text("任务冲突: ", m.as_str()),
            AppError::Win32(m) => prefixed_text("Win32 错误: ", m.as_str()),
            AppError::Vss(m) => prefixed_text("VSS 错误: ", m.as_str()),
            AppError::StaleScan => String::from_str("stale_scan"),
        }
    }
}

/// One text behind another.
pub fn prefixed_text(prefix: &str, text: &str) -> (r: String)
    ensures
        r@ == prefix@ + text@,
{
    let mut out = String::from_str(prefix);
    out.append(text);
    out
}

} // verus!
