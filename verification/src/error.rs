//! The error kinds of the library.
use vstd::prelude::*;

use crate::text::{concat, owned};

verus! {

/// Everything that can go wrong while reading the client or a service.
#[derive(Debug)]
pub enum AppError {
    ClientNotFound,
    ClientAuthNotFound,
    LcuUnavailable(String),
    InvalidInput(String),
    RiotClientUnavailable(String),
    SgpUnavailable(String),
    PlayerNotFound(String),
    LiveGameUnavailable,
    Cancelled,
    Http(String),
    Windows(String),
}

/// The message shown for an error: a fixed sentence per kind, followed by
/// the detail the error carries.
pub open spec fn message_spec(e: AppError) -> Seq<char> {
    match e {
        AppError::ClientNotFound => "没有发现正在运行的 LeagueClientUx.exe"@,
        AppError::ClientAuthNotFound => "发现了客户端进程，但没有读到可用的 LCU 连接参数"@,
        AppError::LcuUnavailable(m) => "客户端接口请求失败："@ + m@,
        AppError::InvalidInput(m) => "输入格式不正确："@ + m@,
        AppError::RiotClientUnavailable(m) => "Riot Client 接口不可用："@ + m@,
        AppError::SgpUnavailable(m) => "深战绩服务暂时不可用："@ + m@,
        AppError::PlayerNotFound(m) => "没有找到玩家："@ + m@,
        AppError::LiveGameUnavailable => "当前阶段没有可读取的对局"@,
        AppError::Cancelled => "已取消加载"@,
        AppError::Http(m) => "网络请求失败："@ + m@,
        AppError::Windows(m) => "Windows API 调用失败："@ + m@,
    }
}

impl AppError {
    /// The message shown to the user.
    pub fn message(&self) -> (r: String)
        ensures
            r@ == message_spec(*self),
    {
        match self {
            AppError::ClientNotFound => owned("没有发现正在运行的 LeagueClientUx.exe"),
            AppError::ClientAuthNotFound => owned("发现了客户端进程，但没有读到可用的 LCU 连接参数"),
            AppError::LcuUnavailable(m) => concat("客户端接口请求失败：", m.as_str()),
            AppError::InvalidInput(m) => concat("输入格式不正确：", m.as_str()),
            AppError::RiotClientUnavailable(m) => concat("Riot Client 接口不可用：", m.as_str()),
            AppError::SgpUnavailable(m) => concat("深战绩服务暂时不可用：", m.as_str()),
            AppError::PlayerNotFound(m) => concat("没有找到玩家：", m.as_str()),
            AppError::LiveGameUnavailable => owned("当前阶段没有可读取的对局"),
            AppError::Cancelled => owned("已取消加载"),
            AppError::Http(m) => concat("网络请求失败：", m.as_str()),
            AppError::Windows(m) => concat("Windows API 调用失败：", m.as_str()),
        }
    }
}

} // verus!
