//! Topics as plain records of text, with the days of a task as numbers.

use crate::cost::{add_capped, capped};
use crate::dates::{day_number, day_number_of};
use crate::node::Node;
use crate::text::{find_char, holds_text, strictly_rising, underscores_to_spaces, with_char_replaced};
use crate::titles::{after_env, env_from_filename, env_of, rest_after_env};
use crate::topic::{byte_len, TopicError};
use vstd::prelude::*;
use vstd::string::{StrSliceExecFns, StringExecFns};

verus! {

/// What a topic carries.
pub struct YamlData {
    /// Name as it appears in the document.
    pub label: String,
    /// Kind of the topic, which decides how it is set.
    pub env: String,
    /// Text before the main text.
    pub pre: String,
    /// The main text.
    pub main: String,
    /// Text after the main text.
    pub post: String,
    /// Text of a listing.
    pub listtext: String,
    /// Language of the listing.
    pub lang: String,
    /// Lines of the listing to show.
    pub lines: Vec<u64>,
    /// Proofs that follow the main text.
    pub pfs: Vec<String>,
    /// Other names of the topic.
    pub alt: Vec<String>,
    /// Where to read more.
    pub wiki: String,
    /// Whether to leave out a link for reading more.
    pub nowiki: bool,
    /// Other links, each with its name.
    pub urls: Vec<(String, String)>,
    /// Questions still to be answered.
    pub q: Vec<String>,
    /// Year in which a task was begun.
    pub ys: i32,
    /// Month in which a task was begun.
    pub ms: u32,
    /// Day of the month on which a task was begun.
    pub ds: u32,
    /// Year in which a task was completed.
    pub ye: i32,
    /// Month in which a task was completed.
    pub me: u32,
    /// Day of the month on which a task was completed.
    pub de: u32,
    /// Days that a task took, the day of completion counted.
    pub duration: i64,
    pub gen: Vec<String>,
    pub case: Vec<String>,
    /// Sources to be listed with the topic.
    pub src: Vec<String>,
    /// The headings that follow the topic in the document.
    pub heading: String,
    /// Name of the section that ends with the topic.
    pub sec: String,
}

impl YamlData {
    /// Whether nothing has been said of the topic yet: every text and
    /// list is empty, and it begins and ends on 1 January of the year 0.
    pub open spec fn is_blank(&self) -> bool {
        &&& self.label@.len() == 0
        &&& self.env@.len() == 0
        &&& self.pre@.len() == 0
        &&& self.main@.len() == 0
        &&& self.post@.len() == 0
        &&& self.listtext@.len() == 0
        &&& self.lang@.len() == 0
        &&& self.lines@.len() == 0
        &&& self.pfs@.len() == 0
        &&& self.alt@.len() == 0
        &&& self.wiki@.len() == 0
        &&& !self.nowiki
        &&& self.urls@.len() == 0
        &&& self.q@.len() == 0
        &&& self.ys == 0
        &&& self.ms == 1
        &&& self.ds == 1
        &&& self.ye == 0
        &&& self.me == 1
        &&& self.de == 1
        &&& self.duration == 0
        &&& self.gen@.len() == 0
        &&& self.case@.len() == 0
        &&& self.src@.len() == 0
        &&& self.heading@.len() == 0
        &&& self.sec@.len() == 0
    }

    /// A topic of which nothing has been said yet.
    pub fn new() -> (data: YamlData)
        ensures
            data.is_blank(),
    {
        YamlData {
            label: String::new(),
            env: String::new(),
            pre: String::new(),
            main: String::new(),
            listtext: String::new(),
            lang: String::new(),
            lines: Vec::new(),
            post: String::new(),
            pfs: Vec::new(),
            alt: Vec::new(),
            wiki: String::new(),
            nowiki: false,
            urls: Vec::new(),
            q: Vec::new(),
            ys: 0,
            ms: 1,
            ds: 1,
            ye: 0,
            me: 1,
            de: 1,
            duration: 0,
            gen: Vec::new(),
            case: Vec::new(),
            src: Vec::new(),
            sec: String::new(),
            heading: String::new(),
        }
    }

    /// The headings that follow the topic in the document.
    pub fn heading(&self) -> (r: String)
        ensures
            r@ == self.heading@,
    {
        self.heading.clone()
    }

    /// Adds `s` to the headings that follow the topic.
    pub fn append_heading(&mut self, s: &String)
        ensures
            final(self).heading@ == old(self).heading@ + s@,
            *final(self) == (YamlData { heading: final(self).heading, ..*old(self) }),
    {
        self.heading.append(s.as_str());
    }
}

/// What the record of a topic says.
pub struct YamlRecord {
    /// The topics that this one comes after.
    pub after: Vec<String>,
    /// The topics that this one comes before.
    pub before: Vec<String>,
    /// Everything else; a label that the record does not give is empty.
    pub data: YamlData,
}

/// `text` with a capital at the head of every word, as the crate
/// `Inflector` writes it.
pub uninterp spec fn title_cased_words(text: Seq<char>) -> Seq<char>;

/// Calls `inflector::cases::titlecase::to_title_case`, which splits a
/// text into words and gives each a capital. The contract gives the
/// result the name [`title_cased_words`]; it claims nothing else of it.
#[verifier::external_body]
pub(crate) fn to_title_case(text: &str) -> (r: String)
    ensures
        r@ == title_cased_words(text@),
{
    inflector::cases::titlecase::to_title_case(text)
}

/// `s` up to its first full stop; nothing if it has none.
pub open spec fn before_first_stop(s: Seq<char>) -> Seq<char> {
    if exists|i: int| 0 <= i < s.len() && s[i] == '.' && !s.take(i).contains('.') {
        s.take(choose|i: int| 0 <= i < s.len() && s[i] == '.' && !s.take(i).contains('.'))
    } else {
        Seq::<char>::empty()
    }
}

/// The label that a file name gives a record: what follows the kind, up
/// to the first full stop, with spaces for underscores, every word with a
/// capital.
pub open spec fn record_label_of(name: Seq<char>) -> Seq<char> {
    title_cased_words(with_char_replaced(before_first_stop(after_env(name)), '_', ' '))
}

/// `rest` up to its first full stop.
fn cut_at_first_stop(rest: &str) -> (r: &str)
    ensures
        r@ == before_first_stop(rest@),
{
    match find_char(rest, '.') {
        Some(i) => {
            proof {
                let head = rest@.take(i as int);
                assert(!head.contains('.')) by {
                    if head.contains('.') {
                        let k = choose|k: int| 0 <= k < head.len() && head[k] == '.';
                        assert(rest@[k] == '.');
                    }
                }
                assert forall|j: int|
                    0 <= j < rest@.len() && rest@[j] == '.' && !rest@.take(j).contains(
                        '.',
                    ) implies j == i by {
                    if j < i {
                        assert(rest@[j] != '.');
                    }
                    if i < j {
                        assert(rest@.take(j)[i as int] == '.');
                    }
                }
                assert(rest@.subrange(0, i as int) =~= rest@.take(i as int));
            }
            rest.substring_char(0, i)
        },
        None => {
            proof {
                assert forall|j: int| 0 <= j < rest@.len() implies rest@[j] != '.' by {
                    if rest@[j] == '.' {
                        assert(rest@.contains('.'));
                    }
                }
                assert(rest@.subrange(0, 0) =~= Seq::<char>::empty());
            }
            rest.substring_char(0, 0)
        },
    }
}

/// Whether a topic of kind `env` is an item of a list to be checked off.
pub open spec fn is_checklist(env: Seq<char>) -> bool {
    env == "unchecked"@ || env == "checked"@
}

/// Whether the record gives a year for the beginning or the completion.
pub open spec fn has_years(data: YamlData) -> bool {
    data.ys > 0 || data.ye > 0
}

/// The days from the beginning of a task to the day after its
/// completion, if both are days of the calendar.
pub open spec fn span_of(data: YamlData) -> Option<int> {
    if data.de == u32::MAX {
        None
    } else {
        match (
            day_number(data.ys as int, data.ms as int, data.ds as int),
            day_number(data.ye as int, data.me as int, data.de + 1),
        ) {
            (Some(a), Some(b)) => Some(b - a),
            _ => None,
        }
    }
}

/// Makes the node of a topic from the name of its file and what its
/// record says. The file name gives kind and label; a label in the record
/// takes the place of the one from the file name. An item of a checklist
/// costs one, and where its record gives a year, the days it took are
/// counted from its beginning to the day after its completion; any other
/// topic costs one more than the bytes of its texts. The lists of what
/// the topic comes after and before are put in order, without repeats.
pub fn update_fields(filename: &String, record: YamlRecord) -> (r: Result<
    Node<YamlData>,
    TopicError,
>)
    ensures
        match r {
            Ok(node) => {
                &&& node.path@ == filename@
                &&& node.is_detached()
                &&& !node.sorted
                &&& node.times_visited == 0
                &&& node.deadline is None
                &&& strictly_rising(node.after@)
                &&& forall|t: Seq<char>|
                    holds_text(node.after@, t) <==> holds_text(record.after@, t)
                &&& strictly_rising(node.before@)
                &&& forall|t: Seq<char>|
                    holds_text(node.before@, t) <==> holds_text(record.before@, t)
                &&& node.dag_cost == node.cost
                &&& node.data == (YamlData {
                    env: node.data.env,
                    label: node.data.label,
                    duration: node.data.duration,
                    ..record.data
                })
                &&& node.data.env@ == env_of(filename@)
                &&& node.data.label@ == if record.data.label@.len() > 0 {
                    record.data.label@
                } else {
                    record_label_of(filename@)
                }
                &&& if is_checklist(env_of(filename@)) {
                    &&& node.cost == 1
                    &&& if has_years(record.data) {
                        &&& span_of(record.data) is Some
                        &&& node.data.duration == if span_of(record.data)->0 > 0 {
                            span_of(record.data)->0
                        } else {
                            record.data.duration as int
                        }
                    } else {
                        node.data.duration == record.data.duration
                    }
                } else {
                    &&& node.cost == capped(
                        1 + byte_len(record.data.main@) + byte_len(record.data.pre@) + byte_len(
                            record.data.post@,
                        ),
                    )
                    &&& node.data.duration == record.data.duration
                }
            },
            Err(e) => {
                &&& e == TopicError::BadDate
                &&& is_checklist(env_of(filename@))
                &&& has_years(record.data)
                &&& span_of(record.data) is None
            },
        },
{
    let YamlRecord { after, before, data } = record;
    let mut data = data;
    data.env = env_from_filename(filename);
    if data.label.as_str().unicode_len() == 0 {
        let spaced = underscores_to_spaces(cut_at_first_stop(rest_after_env(filename.as_str())));
        data.label = to_title_case(spaced.as_str());
    }
    let unchecked = String::from_str("unchecked");
    let checked = String::from_str("checked");
    let mut cost: usize = 1;
    if data.env == unchecked || data.env == checked {
        if data.ys > 0 || data.ye > 0 {
            if data.de == u32::MAX {
                return Err(TopicError::BadDate);
            }
            let a = match day_number_of(data.ys, data.ms, data.ds) {
                Some(a) => a,
                None => {
                    return Err(TopicError::BadDate);
                },
            };
            let b = match day_number_of(data.ye, data.me, data.de + 1) {
                Some(b) => b,
                None => {
                    return Err(TopicError::BadDate);
                },
            };
            if b > a {
                data.duration = b as i64 - a as i64;
            }
        }
    } else {
        let m = data.main.as_str().len();
        let p = data.pre.as_str().len();
        let q = data.post.as_str().len();
        cost = add_capped(add_capped(add_capped(1, m), p), q);
    }
    let mut node = Node::new(filename, data);
    node.after = after;
    node.before = before;
    node.cost = cost;
    node.dag_cost = cost;
    node.dedup_after();
    node.dedup_before();
    Ok(node)
}

} // verus!
