//! The long requests: what is told when one begins and when it ends.
use vstd::prelude::*;

use crate::flow_laws::lemma_between;
use crate::text::{contains, same};

verus! {

/// A long request.
pub enum Job {
    /// An item is installed.
    Install(String),
    /// An item is removed.
    Remove(String),
    /// Everything is updated.
    Update,
    /// A step of the search for a faulty mod, by its word.
    Bisect(String),
}

pub enum JobView {
    Install(Seq<char>),
    Remove(Seq<char>),
    Update,
    Bisect(Seq<char>),
}

impl DeepView for Job {
    type V = JobView;

    open spec fn deep_view(&self) -> JobView {
        match self {
            Job::Install(id) => JobView::Install(id@),
            Job::Remove(id) => JobView::Remove(id@),
            Job::Update => JobView::Update,
            Job::Bisect(word) => JobView::Bisect(word@),
        }
    }
}

/// Whether a request is followed: all are, but for a look at how the search for a
/// faulty mod stands.
pub open spec fn followed(job: JobView) -> bool {
    match job {
        JobView::Bisect(word) => word.len() > 0 && word != "view"@,
        _ => true,
    }
}

/// What is told when a request begins.
pub open spec fn first_line(job: JobView) -> Option<Seq<char>> {
    match job {
        JobView::Install(id) => Some("đang cài "@ + id),
        JobView::Remove(id) => Some("đang gỡ "@ + id),
        JobView::Update => Some("đang cập nhật tất cả"@),
        JobView::Bisect(word) => if followed(job) {
            Some("bisect: "@ + word)
        } else {
            None
        },
    }
}

/// What is told when a request has ended, with this error if it failed.
pub open spec fn last_line(job: JobView, error: Option<Seq<char>>) -> Option<Seq<char>> {
    match (job, error) {
        (JobView::Install(id), Some(e)) => Some("! "@ + id + ": "@ + e),
        (JobView::Remove(id), Some(e)) => Some("! "@ + id + ": "@ + e),
        (JobView::Update, Some(e)) => Some("! cập nhật thất bại: "@ + e),
        (JobView::Bisect(word), _) => if !followed(job) {
            None
        } else {
            match error {
                Some(e) => Some("! bisect "@ + word + ": "@ + e),
                None => Some("bisect "@ + word + ": xong"@),
            }
        },
        _ => None,
    }
}

impl Job {
    /// Whether the request is followed.
    pub fn is_followed(&self) -> (r: bool)
        ensures
            r == followed(self.deep_view()),
    {
        match self {
            Job::Bisect(word) => word.unicode_len() > 0 && !same(word.as_str(), "view"),
            _ => true,
        }
    }

    /// What is told when the request begins.
    pub fn opening(&self) -> (r: Option<String>)
        ensures
            r.deep_view() == first_line(self.deep_view()),
    {
        match self {
            Job::Install(id) => Some("đang cài ".to_string().concat(id.as_str())),
            Job::Remove(id) => Some("đang gỡ ".to_string().concat(id.as_str())),
            Job::Update => Some("đang cập nhật tất cả".to_string()),
            Job::Bisect(word) => if self.is_followed() {
                Some("bisect: ".to_string().concat(word.as_str()))
            } else {
                None
            },
        }
    }

    /// What is told when the request has ended, with `error` if it failed.
    pub fn closing(&self, error: Option<&String>) -> (r: Option<String>)
        ensures
            r.deep_view() == last_line(
                self.deep_view(),
                match error {
                    Some(e) => Some(e@),
                    None => None,
                },
            ),
    {
        match (self, error) {
            (Job::Install(id), Some(e)) => Some(
                "! ".to_string().concat(id.as_str()).concat(": ").concat(e.as_str()),
            ),
            (Job::Remove(id), Some(e)) => Some(
                "! ".to_string().concat(id.as_str()).concat(": ").concat(e.as_str()),
            ),
            (Job::Update, Some(e)) => Some(
                "! cập nhật thất bại: ".to_string().concat(e.as_str()),
            ),
            (Job::Bisect(word), _) => if !self.is_followed() {
                None
            } else {
                match error {
                    Some(e) => Some(
                        "! bisect ".to_string().concat(word.as_str()).concat(": ").concat(
                            e.as_str(),
                        ),
                    ),
                    None => Some(
                        "bisect ".to_string().concat(word.as_str()).concat(": xong"),
                    ),
                }
            },
            _ => None,
        }
    }
}

/// A request that fails is told of, unless it only looked.
pub proof fn law_failures_are_told(job: JobView, error: Seq<char>)
    requires
        followed(job),
    ensures
        first_line(job) is Some,
        last_line(job, Some(error)) matches Some(line) && line.len() >= error.len() && line.subrange(
            line.len() - error.len(),
            line.len() as int,
        ) == error,
{
    let line = last_line(job, Some(error))->Some_0;
    assert(line.subrange(line.len() - error.len(), line.len() as int) =~= error);
}

/// Every request is followed, but for a look at how the search for a faulty mod stands,
/// which has the word `view` or none.
pub proof fn law_all_but_a_look_is_followed(job: JobView)
    ensures
        followed(job) <==> !(job matches JobView::Bisect(word) && (word == seq!['v', 'i', 'e', 'w']
            || word.len() == 0)),
{
    reveal_strlit("view");
    assert("view"@ =~= seq!['v', 'i', 'e', 'w']);
}

/// What is told when a request begins names the item or the word; a request that is not
/// followed tells nothing; and one that went well tells nothing more, but for a step of
/// the search for a faulty mod.
pub proof fn law_a_request_is_named(job: JobView)
    ensures
        (job matches JobView::Install(id) ==> (first_line(job) matches Some(line) && contains(
            line,
            id,
        ) && last_line(job, None) is None)),
        (job matches JobView::Remove(id) ==> (first_line(job) matches Some(line) && contains(
            line,
            id,
        ) && last_line(job, None) is None)),
        job is Update ==> first_line(job) is Some && last_line(job, None) is None,
        (job matches JobView::Bisect(word) ==> (followed(job) ==> (first_line(job) matches Some(
            line,
        ) && contains(line, word)) && (last_line(job, None) matches Some(end) && contains(
            end,
            word,
        )))),
        !followed(job) ==> first_line(job) is None && last_line(job, None) is None,
{
    match job {
        JobView::Install(id) => {
            lemma_between("đang cài "@, id, seq![]);
            assert("đang cài "@ + id + seq![] =~= "đang cài "@ + id);
        },
        JobView::Remove(id) => {
            lemma_between("đang gỡ "@, id, seq![]);
            assert("đang gỡ "@ + id + seq![] =~= "đang gỡ "@ + id);
        },
        JobView::Update => {},
        JobView::Bisect(word) => {
            lemma_between("bisect: "@, word, seq![]);
            assert("bisect: "@ + word + seq![] =~= "bisect: "@ + word);
            lemma_between("bisect "@, word, ": xong"@);
        },
    }
}

} // verus!
