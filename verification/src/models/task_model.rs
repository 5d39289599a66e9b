//! A cleaning task as configured by the user.

use vstd::prelude::*;
use vstd::string::StringExecFns;

verus! {

/// Where a task stands.
#[derive(Clone, Copy, PartialEq, Eq, Structural, Debug)]
pub enum TaskStatus {
    /// A cleaning process runs for the task on its interval.
    Sheduled,
    /// The task is being worked on.
    InProgress,
    /// Nothing runs for the task.
    Idle,
}

impl Default for TaskStatus {
    fn default() -> (status: Self)
        ensures
            status == TaskStatus::Idle,
    {
        TaskStatus::Idle
    }
}

/// A cleaning task: which folder to clean, which file-name patterns define
/// duplicates, how many duplicates to keep and how often to run.
pub struct TaskModel {
    pub id: String,
    pub title: String,
    pub description: String,
    pub auto_run: bool,
    /// Minutes between two cleaning passes.
    pub auto_run_interval: u32,
    pub task_process_id: u32,
    pub status: TaskStatus,
    pub regex_patterns: Vec<String>,
    pub folder_path: String,
    pub number_of_dup_to_keep: u8,
}

/// A task as plain values.
pub struct TaskView {
    pub id: Seq<char>,
    pub title: Seq<char>,
    pub description: Seq<char>,
    pub auto_run: bool,
    pub auto_run_interval: u32,
    pub task_process_id: u32,
    pub status: TaskStatus,
    pub regex_patterns: Seq<Seq<char>>,
    pub folder_path: Seq<char>,
    pub number_of_dup_to_keep: u8,
}

impl View for TaskModel {
    type V = TaskView;

    open spec fn view(&self) -> TaskView {
        TaskView {
            id: self.id@,
            title: self.title@,
            description: self.description@,
            auto_run: self.auto_run,
            auto_run_interval: self.auto_run_interval,
            task_process_id: self.task_process_id,
            status: self.status,
            regex_patterns: self.regex_patterns@.map_values(|s: String| s@),
            folder_path: self.folder_path@,
            number_of_dup_to_keep: self.number_of_dup_to_keep,
        }
    }
}

/// The task a fresh entry starts as, under the id `id`.
pub open spec fn default_task(id: Seq<char>) -> TaskView {
    TaskView {
        id,
        title: "New Task"@,
        description: Seq::empty(),
        auto_run: false,
        auto_run_interval: 60,
        task_process_id: 0,
        status: TaskStatus::Idle,
        regex_patterns: Seq::empty(),
        folder_path: Seq::empty(),
        number_of_dup_to_keep: 2,
    }
}

/// A lowercase hexadecimal digit.
pub open spec fn is_lower_hex(c: char) -> bool {
    ('0' <= c && c <= '9') || ('a' <= c && c <= 'f')
}

/// The form of a random (version 4) UUID written hyphenated in lowercase:
/// 36 characters, hyphens at 8, 13, 18 and 23, lowercase hexadecimal digits
/// elsewhere, the version digit `4` at 14 and a variant digit among `8`, `9`,
/// `a`, `b` at 19.
pub open spec fn uuid_shaped(s: Seq<char>) -> bool {
    &&& s.len() == 36
    &&& forall|i: int|
        0 <= i < 36 ==> if i == 8 || i == 13 || i == 18 || i == 23 {
            #[trigger] s[i] == '-'
        } else {
            is_lower_hex(s[i])
        }
    &&& s[14] == '4'
    &&& (s[19] == '8' || s[19] == '9' || s[19] == 'a' || s[19] == 'b')
}

/// `uuid::Uuid::new_v4` followed by `to_string`: a random version-4 UUID in
/// its hyphenated lowercase form. Claimed: the string has that form
/// (`uuid_shaped`): `new_v4` fixes the version nibble to 4 and the variant
/// bits to `10`, and `Display` writes the hyphenated lowercase hex. The
/// random digits themselves are not claimed; the crate panics if the
/// operating system cannot supply random bytes.
#[verifier::external_body]
fn fresh_task_id() -> (id: String)
    ensures
        uuid_shaped(id@),
{
    uuid::Uuid::new_v4().to_string()
}

/// A copy of a list of strings.
pub fn copy_strings(v: &Vec<String>) -> (res: Vec<String>)
    ensures
        res@.map_values(|s: String| s@) == v@.map_values(|s: String| s@),
{
    let mut res: Vec<String> = Vec::new();
    for i in 0..v.len()
        invariant
            res@.len() == i,
            forall|k: int| 0 <= k < i ==> #[trigger] res@[k]@ == v@[k]@,
    {
        res.push(v[i].clone());
    }
    assert(res@.map_values(|s: String| s@) =~= v@.map_values(|s: String| s@));
    res
}

impl TaskModel {
    /// A fresh task under the given id, with the default settings: title
    /// "New Task", empty description, no auto run, an interval of 60 minutes,
    /// process id 0, status idle, no patterns, no folder, keep 2 duplicates.
    pub fn new_with_id(id: String) -> (task: TaskModel)
        ensures
            task@ == default_task(id@),
    {
        let regex_patterns: Vec<String> = Vec::new();
        assert(regex_patterns@.map_values(|s: String| s@) =~= Seq::<Seq<char>>::empty());
        TaskModel {
            id,
            title: String::from_str("New Task"),
            description: String::new(),
            auto_run: false,
            auto_run_interval: 60,
            task_process_id: 0,
            status: TaskStatus::Idle,
            regex_patterns,
            folder_path: String::new(),
            number_of_dup_to_keep: 2,
        }
    }

    /// A fresh task with the default settings under a newly generated random
    /// UUID.
    pub fn new_default() -> (task: TaskModel)
        ensures
            task@ == default_task(task@.id),
            uuid_shaped(task@.id),
    {
        TaskModel::new_with_id(fresh_task_id())
    }

    /// A copy of the task.
    pub fn duplicate(&self) -> (res: TaskModel)
        ensures
            res@ == self@,
    {
        TaskModel {
            id: self.id.clone(),
            title: self.title.clone(),
            description: self.description.clone(),
            auto_run: self.auto_run,
            auto_run_interval: self.auto_run_interval,
            task_process_id: self.task_process_id,
            status: self.status,
            regex_patterns: copy_strings(&self.regex_patterns),
            folder_path: self.folder_path.clone(),
            number_of_dup_to_keep: self.number_of_dup_to_keep,
        }
    }
}

impl Clone for TaskModel {
    fn clone(&self) -> (res: Self)
        ensures
            res@ == self@,
    {
        self.duplicate()
    }
}

impl Default for TaskModel {
    fn default() -> (task: Self)
        ensures
            task@ == default_task(task@.id),
            uuid_shaped(task@.id),
    {
        TaskModel::new_default()
    }
}

} // verus!
