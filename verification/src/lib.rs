//! The verified core of a local Skill manager: the catalog model, Skill
//! document parsing, path safety, duplicate review, draft validation and
//! planning of file operations. Reading and writing files and the index
//! database happen outside this crate; they hand plain values in.
use vstd::prelude::*;

pub mod text;
pub mod path;
pub mod catalog;
pub mod sorting;
pub mod duplicate;
pub mod similarity;
pub mod detail;
pub mod edit;
pub mod file_operations;
pub mod organization;

verus! {

/// Errors of the workspace, each with the detail shown to the user.
#[derive(Debug, Clone, PartialEq, Eq)]
pub enum WorkspaceError {
    InvalidRoot(String),
    Io(String),
    Database(String),
    Serialization(String),
    UnknownInstance(String),
    InvalidSkillPath(String),
    InvalidDraft(String),
    UnknownChangePlan(i64),
    StaleChangePlan,
    UnknownChangeOperation(i64),
    ChangeAlreadyUndone,
    UnknownSkillGroup(i64),
    InvalidOrganization(String),
    InvalidFileOperation(String),
    UnknownFileOperationPlan(i64),
    StaleFileOperationPlan(String),
    FileOperationAlreadyUndone,
    UnknownFileOperationBatch(i64),
    InvalidArchive(String),
}

/// Whether a Skill instance can be used as it is.
#[derive(Debug, Clone, Copy, PartialEq, Eq)]
pub enum SkillStatus {
    Ready,
    NeedsRepair,
}

/// The state of a Skill root directory after its last scan.
#[derive(Debug, Clone, Copy, PartialEq, Eq)]
pub enum SkillRootStatus {
    Ready,
    PartialFailure,
    Missing,
    PermissionDenied,
}

/// One Skill directory found under a root.
#[derive(Debug, Clone, PartialEq, Eq)]
pub struct SkillInstance {
    pub id: String,
    pub root_id: i64,
    pub name: String,
    pub description: String,
    pub relative_path: String,
    pub skill_file_path: String,
    pub link_path: Option<String>,
    pub real_path: String,
    pub status: SkillStatus,
    pub error: Option<String>,
}

/// A Skill root directory under management.
#[derive(Debug, Clone, PartialEq, Eq)]
pub struct SkillRoot {
    pub id: i64,
    pub path: String,
    pub status: SkillRootStatus,
    pub error: Option<String>,
    pub recovery_hint: Option<String>,
}

/// The catalog as the index holds it.
#[derive(Debug, Clone, PartialEq, Eq)]
pub struct WorkspaceSnapshot {
    pub authorized_root: Option<String>,
    pub roots: Vec<SkillRoot>,
    pub instances: Vec<SkillInstance>,
}

/// A workspace, identified by the path of its index database.
#[derive(Debug, Clone)]
pub struct SkillWorkspace {
    pub database_path: String,
}

/// A copy of an optional string.
pub fn copy_opt(s: &Option<String>) -> (r: Option<String>)
    ensures
        r == *s,
{
    match s {
        Some(v) => Some(v.clone()),
        None => None,
    }
}

/// The text an error shows to the user.
pub open spec fn error_message(e: WorkspaceError) -> Seq<char> {
    match e {
        WorkspaceError::InvalidRoot(m) => "无法访问 Skill 根目录："@ + m@,
        WorkspaceError::Io(_) => "读取本地文件失败，请检查路径、权限或磁盘状态。"@,
        WorkspaceError::Database(m) => "初始化本地索引失败："@ + m@,
        WorkspaceError::Serialization(m) => "本地记录格式无效："@ + m@,
        WorkspaceError::UnknownInstance(m) => "找不到 Skill 实例："@ + m@,
        WorkspaceError::InvalidSkillPath(m) => m@,
        WorkspaceError::InvalidDraft(m) => m@,
        WorkspaceError::UnknownChangePlan(id) => "找不到修改计划："@ + text::decimal(id as int),
        WorkspaceError::StaleChangePlan => "修改计划已过期：Skill 在预览后已被修改，请重新预览。"@,
        WorkspaceError::UnknownChangeOperation(id) => "找不到修改记录："@ + text::decimal(id as int),
        WorkspaceError::ChangeAlreadyUndone => "该修改已经撤销。"@,
        WorkspaceError::UnknownSkillGroup(id) => "找不到 Skill 组："@ + text::decimal(id as int),
        WorkspaceError::InvalidOrganization(m) => m@,
        WorkspaceError::InvalidFileOperation(m) => m@,
        WorkspaceError::UnknownFileOperationPlan(id) => "找不到文件操作计划："@ + text::decimal(
            id as int,
        ),
        WorkspaceError::StaleFileOperationPlan(m) => "文件操作计划已过期，路径在预览后已变化："@ + m@,
        WorkspaceError::FileOperationAlreadyUndone => "该文件操作已经撤销。"@,
        WorkspaceError::UnknownFileOperationBatch(id) => "找不到文件操作记录："@ + text::decimal(
            id as int,
        ),
        WorkspaceError::InvalidArchive(m) => m@,
    }
}

impl WorkspaceError {
    /// The text the error shows to the user. A failure to read a file shows
    /// no platform detail.
    pub fn message(&self) -> (r: String)
        ensures
            r@ == error_message(*self),
    {
        match self {
            WorkspaceError::InvalidRoot(m) => text::concat2("无法访问 Skill 根目录：", m.as_str()),
            WorkspaceError::Io(_) => "读取本地文件失败，请检查路径、权限或磁盘状态。".to_owned(),
            WorkspaceError::Database(m) => text::concat2("初始化本地索引失败：", m.as_str()),
            WorkspaceError::Serialization(m) => text::concat2("本地记录格式无效：", m.as_str()),
            WorkspaceError::UnknownInstance(m) => text::concat2("找不到 Skill 实例：", m.as_str()),
            WorkspaceError::InvalidSkillPath(m) => m.clone(),
            WorkspaceError::InvalidDraft(m) => m.clone(),
            WorkspaceError::UnknownChangePlan(id) => text::concat2(
                "找不到修改计划：",
                text::i64_decimal(*id).as_str(),
            ),
            WorkspaceError::StaleChangePlan => "修改计划已过期：Skill 在预览后已被修改，请重新预览。".to_owned(),
            WorkspaceError::UnknownChangeOperation(id) => text::concat2(
                "找不到修改记录：",
                text::i64_decimal(*id).as_str(),
            ),
            WorkspaceError::ChangeAlreadyUndone => "该修改已经撤销。".to_owned(),
            WorkspaceError::UnknownSkillGroup(id) => text::concat2(
                "找不到 Skill 组：",
                text::i64_decimal(*id).as_str(),
            ),
            WorkspaceError::InvalidOrganization(m) => m.clone(),
            WorkspaceError::InvalidFileOperation(m) => m.clone(),
            WorkspaceError::UnknownFileOperationPlan(id) => text::concat2(
                "找不到文件操作计划：",
                text::i64_decimal(*id).as_str(),
            ),
            WorkspaceError::StaleFileOperationPlan(m) => text::concat2(
                "文件操作计划已过期，路径在预览后已变化：",
                m.as_str(),
            ),
            WorkspaceError::FileOperationAlreadyUndone => "该文件操作已经撤销。".to_owned(),
            WorkspaceError::UnknownFileOperationBatch(id) => text::concat2(
                "找不到文件操作记录：",
                text::i64_decimal(*id).as_str(),
            ),
            WorkspaceError::InvalidArchive(m) => m.clone(),
        }
    }

    /// A copy of the error.
    pub fn copy(&self) -> (r: WorkspaceError)
        ensures
            r == *self,
    {
        match self {
            WorkspaceError::InvalidRoot(m) => WorkspaceError::InvalidRoot(m.clone()),
            WorkspaceError::Io(m) => WorkspaceError::Io(m.clone()),
            WorkspaceError::Database(m) => WorkspaceError::Database(m.clone()),
            WorkspaceError::Serialization(m) => WorkspaceError::Serialization(m.clone()),
            WorkspaceError::UnknownInstance(m) => WorkspaceError::UnknownInstance(m.clone()),
            WorkspaceError::InvalidSkillPath(m) => WorkspaceError::InvalidSkillPath(m.clone()),
            WorkspaceError::InvalidDraft(m) => WorkspaceError::InvalidDraft(m.clone()),
            WorkspaceError::UnknownChangePlan(id) => WorkspaceError::UnknownChangePlan(*id),
            WorkspaceError::StaleChangePlan => WorkspaceError::StaleChangePlan,
            WorkspaceError::UnknownChangeOperation(id) => WorkspaceError::UnknownChangeOperation(*id),
            WorkspaceError::ChangeAlreadyUndone => WorkspaceError::ChangeAlreadyUndone,
            WorkspaceError::UnknownSkillGroup(id) => WorkspaceError::UnknownSkillGroup(*id),
            WorkspaceError::InvalidOrganization(m) => WorkspaceError::InvalidOrganization(m.clone()),
            WorkspaceError::InvalidFileOperation(m) => WorkspaceError::InvalidFileOperation(m.clone()),
            WorkspaceError::UnknownFileOperationPlan(id) => WorkspaceError::UnknownFileOperationPlan(*id),
            WorkspaceError::StaleFileOperationPlan(m) => WorkspaceError::StaleFileOperationPlan(m.clone()),
            WorkspaceError::FileOperationAlreadyUndone => WorkspaceError::FileOperationAlreadyUndone,
            WorkspaceError::UnknownFileOperationBatch(id) => WorkspaceError::UnknownFileOperationBatch(*id),
            WorkspaceError::InvalidArchive(m) => WorkspaceError::InvalidArchive(m.clone()),
        }
    }
}

impl SkillInstance {
    /// A copy of the instance.
    pub fn copy(&self) -> (r: SkillInstance)
        ensures
            r == *self,
    {
        SkillInstance {
            id: self.id.clone(),
            root_id: self.root_id,
            name: self.name.clone(),
            description: self.description.clone(),
            relative_path: self.relative_path.clone(),
            skill_file_path: self.skill_file_path.clone(),
            link_path: copy_opt(&self.link_path),
            real_path: self.real_path.clone(),
            status: self.status,
            error: copy_opt(&self.error),
        }
    }
}

impl SkillRoot {
    /// A copy of the root.
    pub fn copy(&self) -> (r: SkillRoot)
        ensures
            r == *self,
    {
        SkillRoot {
            id: self.id,
            path: self.path.clone(),
            status: self.status,
            error: copy_opt(&self.error),
            recovery_hint: copy_opt(&self.recovery_hint),
        }
    }
}

} // verus!
