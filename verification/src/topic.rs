//! Topics: what the nodes of a document carry, and how a node is made
//! from the record of a topic.

use crate::cost::{add_capped, capped};
use crate::dates::{day_number_from, day_number_in, days_between};
use crate::node::{Deadline, Node};
use crate::text::{holds_text, strictly_rising};
use crate::titles::{env_from_filename, env_of, label_from_filename, label_of};
use vstd::prelude::*;
use vstd::string::StringExecFns;
use vstd::utf8::encode_utf8;

verus! {

/// One topic of a document.
pub struct Topic {
    /// Name as it appears in the document.
    pub label: String,
    /// Kind of the topic, which decides how it is set.
    pub env: String,
    /// An explanation in the simplest words.
    pub eli5: String,
    /// Text before the main text.
    pub pre: String,
    /// The main text.
    pub main: String,
    /// Text after the main text.
    pub post: String,
    /// Text of a listing.
    pub listtext: String,
    /// Language of the listing.
    pub lang: String,
    /// Other names of the topic.
    pub aka: Vec<String>,
    /// Lines of the listing to show.
    pub lines: Vec<usize>,
    /// Proofs that follow the main text.
    pub pfs: Vec<String>,
    /// Where to read more.
    pub wiki: String,
    /// Whether to leave out a link for reading more.
    pub nowiki: bool,
    /// Other links, each with its name.
    pub urls: Vec<(String, String)>,
    /// Questions still to be answered.
    pub q: Vec<String>,
    /// Day on which a task was begun: year, month, day.
    pub start: Option<Vec<usize>>,
    /// Day on which a task was completed: year, month, day.
    pub complete: Option<Vec<usize>>,
    /// Day by which a task is due: year, month, day.
    pub deadline: Option<Vec<usize>>,
    /// Days that a task is expected to take.
    pub expected: usize,
    /// Days that a task took.
    pub duration: usize,
    pub gen: Vec<String>,
    pub case: Vec<String>,
    /// Sources to be listed with the topic.
    pub src: Vec<String>,
    /// How deep in the headings the topic stands.
    pub heading_depth: usize,
    /// The depth of the heading that opens at the topic.
    pub heading_depth_start: usize,
    /// The headings that open at the topic.
    pub heading_titles: Vec<String>,
}

impl Topic {
    /// Whether nothing has been said of the topic yet.
    pub open spec fn is_blank(&self) -> bool {
        &&& self.label@.len() == 0
        &&& self.env@.len() == 0
        &&& self.eli5@.len() == 0
        &&& self.pre@.len() == 0
        &&& self.main@.len() == 0
        &&& self.post@.len() == 0
        &&& self.listtext@.len() == 0
        &&& self.lang@.len() == 0
        &&& self.aka@.len() == 0
        &&& self.lines@.len() == 0
        &&& self.pfs@.len() == 0
        &&& self.wiki@.len() == 0
        &&& !self.nowiki
        &&& self.urls@.len() == 0
        &&& self.q@.len() == 0
        &&& self.start is None
        &&& self.complete is None
        &&& self.deadline is None
        &&& self.expected == 0
        &&& self.duration == 0
        &&& self.gen@.len() == 0
        &&& self.case@.len() == 0
        &&& self.src@.len() == 0
        &&& self.heading_depth == 0
        &&& self.heading_depth_start == 0
        &&& self.heading_titles@.len() == 0
    }

    /// A topic of which nothing has been said yet.
    pub fn new() -> (topic: Topic)
        ensures
            topic.is_blank(),
    {
        Topic {
            label: String::new(),
            env: String::new(),
            eli5: String::new(),
            pre: String::new(),
            main: String::new(),
            listtext: String::new(),
            lang: String::new(),
            aka: Vec::new(),
            lines: Vec::new(),
            post: String::new(),
            pfs: Vec::new(),
            wiki: String::new(),
            nowiki: false,
            urls: Vec::new(),
            q: Vec::new(),
            start: None,
            complete: None,
            deadline: None,
            duration: 0,
            expected: 0,
            gen: Vec::new(),
            case: Vec::new(),
            src: Vec::new(),
            heading_depth: 0,
            heading_depth_start: 0,
            heading_titles: Vec::new(),
        }
    }
}

/// What the record of a topic says.
pub struct TopicRecord {
    /// The topics that this one comes after.
    pub req: Vec<String>,
    /// The topics that this one comes before.
    pub incl: Vec<String>,
    /// Everything else; a label that the record does not give is empty.
    pub data: Topic,
}

/// Why no node could be made from a record.
#[derive(Clone, Copy, PartialEq, Eq, Structural, Debug)]
pub enum TopicError {
    /// A date that the topic needs is no day of the calendar.
    BadDate,
    /// A task was completed before it was begun.
    CompletedBeforeStart,
}

/// Number of bytes that `text` takes.
pub open spec fn byte_len(text: Seq<char>) -> usize {
    encode_utf8(text).len() as usize
}

/// Whether the topic is a task: its kind is `task`.
pub open spec fn is_task(env: Seq<char>) -> bool {
    env == "task"@
}

/// Whether a task has both the day it was begun and the day it was
/// completed.
pub open spec fn is_timed(data: Topic) -> bool {
    data.start is Some && data.complete is Some
}

/// The deadline that a node gets from what the record says.
pub open spec fn deadline_in(given: Option<Vec<usize>>) -> Option<Deadline> {
    match given {
        Some(date) => Some(Deadline { year: date@[0], month: date@[1], day: date@[2] }),
        None => None,
    }
}

/// Why no node can be made from a record for a topic of kind `env`, if
/// there is such a reason.
pub open spec fn refusal(env: Seq<char>, data: Topic) -> Option<TopicError> {
    if data.deadline is Some && data.deadline->0@.len() < 3 {
        Some(TopicError::BadDate)
    } else if is_task(env) && is_timed(data) {
        if day_number_in(data.start->0@) is None || day_number_in(data.complete->0@) is None {
            Some(TopicError::BadDate)
        } else if days_between(data.start->0@, data.complete->0@) is None {
            Some(TopicError::CompletedBeforeStart)
        } else {
            None
        }
    } else {
        None
    }
}

/// Days that a task of kind `env` took: the days from its beginning to
/// its completion if both are known, else what the record says.
pub open spec fn duration_of(env: Seq<char>, data: Topic) -> int {
    if is_task(env) && is_timed(data) {
        match days_between(data.start->0@, data.complete->0@) {
            Some(days) => days,
            None => 0,
        }
    } else {
        data.duration as int
    }
}

/// What a topic of kind `env` costs alone: for a task one more than the
/// days it took or is expected to take; for any other topic one more than
/// the bytes of its texts. A cost that does not fit is the largest word.
pub open spec fn cost_of(env: Seq<char>, data: Topic) -> usize {
    if is_task(env) {
        if is_timed(data) {
            capped(1 + duration_of(env, data))
        } else {
            capped(1 + data.expected)
        }
    } else {
        capped(1 + byte_len(data.main@) + byte_len(data.pre@) + byte_len(data.post@))
    }
}

/// Makes the node of a topic from the name of its file and what its
/// record says. The file name gives kind and label; a label in the record
/// takes the place of the one from the file name. The lists of what the
/// topic comes after and before are put in order, without repeats.
pub fn create_topic(filename: &String, record: TopicRecord) -> (r: Result<Node<Topic>, TopicError>)
    ensures
        match r {
            Ok(node) => {
                &&& refusal(env_of(filename@), record.data) is None
                &&& node.path@ == filename@
                &&& node.is_detached()
                &&& !node.sorted
                &&& node.times_visited == 0
                &&& strictly_rising(node.after@)
                &&& forall|t: Seq<char>| holds_text(node.after@, t) <==> holds_text(record.req@, t)
                &&& strictly_rising(node.before@)
                &&& forall|t: Seq<char>|
                    holds_text(node.before@, t) <==> holds_text(record.incl@, t)
                &&& node.cost == cost_of(env_of(filename@), record.data)
                &&& node.dag_cost == node.cost
                &&& node.deadline == deadline_in(record.data.deadline)
                &&& node.data == (Topic {
                    env: node.data.env,
                    label: node.data.label,
                    duration: node.data.duration,
                    ..record.data
                })
                &&& node.data.env@ == env_of(filename@)
                &&& node.data.label@ == if record.data.label@.len() > 0 {
                    record.data.label@
                } else {
                    label_of(filename@)
                }
                &&& node.data.duration == duration_of(env_of(filename@), record.data)
            },
            Err(e) => refusal(env_of(filename@), record.data) == Some(e),
        },
{
    let TopicRecord { req, incl, data } = record;
    let mut data = data;
    let ghost given = data;
    data.env = env_from_filename(filename);
    if data.label.as_str().unicode_len() == 0 {
        data.label = label_from_filename(filename);
    }
    let deadline = match &data.deadline {
        Some(date) => {
            if date.len() < 3 {
                return Err(TopicError::BadDate);
            }
            Some(Deadline { year: date[0], month: date[1], day: date[2] })
        },
        None => None,
    };
    let task = String::from_str("task");
    let cost = if data.env == task {
        let days = match (&data.start, &data.complete) {
            (Some(s), Some(c)) => {
                let a = match day_number_from(s) {
                    Some(a) => a,
                    None => {
                        return Err(TopicError::BadDate);
                    },
                };
                let b = match day_number_from(c) {
                    Some(b) => b,
                    None => {
                        return Err(TopicError::BadDate);
                    },
                };
                if b < a {
                    return Err(TopicError::CompletedBeforeStart);
                }
                Some((b as i64 - a as i64) as usize)
            },
            _ => None,
        };
        match days {
            Some(days) => {
                data.duration = days;
                add_capped(1, days)
            },
            None => add_capped(1, data.expected),
        }
    } else {
        add_capped(add_capped(add_capped(1, data.main.as_str().len()), data.pre.as_str().len()), data.post.as_str().len())
    };
    let mut node = Node::new(filename, data);
    node.after = req;
    node.before = incl;
    node.cost = cost;
    node.dag_cost = cost;
    node.deadline = deadline;
    node.dedup_after();
    node.dedup_before();
    Ok(node)
}

} // verus!
