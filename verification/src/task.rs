//! Tasks: topics that are begun and completed on given days.

use vstd::prelude::*;

verus! {

/// One task of a plan.
pub struct Task {
    /// Name as it appears in the document.
    pub label: String,
    /// Kind of the task, which decides how it is set.
    pub env: String,
    /// An explanation in the simplest words.
    pub eli5: String,
    /// Text before the main text.
    pub pre: String,
    /// The main text.
    pub main: String,
    /// Text after the main text.
    pub post: String,
    /// Text of a listing.
    pub listtext: String,
    /// Language of the listing.
    pub lang: String,
    /// Lines of the listing to show.
    pub lines: Vec<u64>,
    /// Proofs that follow the main text.
    pub pfs: Vec<String>,
    /// Other names of the task.
    pub alt: Vec<String>,
    /// Where to read more.
    pub wiki: String,
    /// Whether to leave out a link for reading more.
    pub nowiki: bool,
    /// Other links, each with its name.
    pub urls: Vec<(String, String)>,
    /// Questions still to be answered.
    pub q: Vec<String>,
    /// Year in which the task was begun.
    pub ys: i32,
    /// Month in which the task was begun.
    pub ms: u32,
    /// Day of the month on which the task was begun.
    pub ds: u32,
    /// Year in which the task was completed.
    pub ye: i32,
    /// Month in which the task was completed.
    pub me: u32,
    /// Day of the month on which the task was completed.
    pub de: u32,
    /// Days that the task took.
    pub duration: i64,
    pub gen: Vec<String>,
    pub case: Vec<String>,
    /// Sources to be listed with the task.
    pub src: Vec<String>,
}

impl Task {
    /// Whether nothing has been said of the task yet: every text and list
    /// is empty, and it begins and ends on 1 January of the year 0.
    pub open spec fn is_blank(&self) -> bool {
        &&& self.label@.len() == 0
        &&& self.env@.len() == 0
        &&& self.eli5@.len() == 0
        &&& self.pre@.len() == 0
        &&& self.main@.len() == 0
        &&& self.post@.len() == 0
        &&& self.listtext@.len() == 0
        &&& self.lang@.len() == 0
        &&& self.lines@.len() == 0
        &&& self.pfs@.len() == 0
        &&& self.alt@.len() == 0
        &&& self.wiki@.len() == 0
        &&& !self.nowiki
        &&& self.urls@.len() == 0
        &&& self.q@.len() == 0
        &&& self.ys == 0
        &&& self.ms == 1
        &&& self.ds == 1
        &&& self.ye == 0
        &&& self.me == 1
        &&& self.de == 1
        &&& self.duration == 0
        &&& self.gen@.len() == 0
        &&& self.case@.len() == 0
        &&& self.src@.len() == 0
    }

    /// A task of which nothing has been said yet.
    pub fn new() -> (task: Task)
        ensures
            task.is_blank(),
    {
        Task {
            label: String::new(),
            env: String::new(),
            eli5: String::new(),
            pre: String::new(),
            main: String::new(),
            listtext: String::new(),
            lang: String::new(),
            lines: Vec::new(),
            post: String::new(),
            pfs: Vec::new(),
            alt: Vec::new(),
            wiki: String::new(),
            nowiki: false,
            urls: Vec::new(),
            q: Vec::new(),
            ys: 0,
            ms: 1,
            ds: 1,
            ye: 0,
            me: 1,
            de: 1,
            duration: 0,
            gen: Vec::new(),
            case: Vec::new(),
            src: Vec::new(),
        }
    }
}

} // verus!
