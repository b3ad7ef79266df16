use tok::node::Deadline;
use tok::task::Task;
use tok::topic::{create_topic, Topic, TopicError, TopicRecord};
use tok::yaml::{update_fields, YamlData, YamlRecord};

fn t(text: &str) -> String {
    text.to_string()
}

fn record() -> TopicRecord {
    TopicRecord { req: vec![], incl: vec![], data: Topic::new() }
}

#[test]
fn new_topic_is_blank() {
    let topic = Topic::new();
    assert!(topic.label.is_empty());
    assert!(topic.env.is_empty());
    assert!(topic.main.is_empty());
    assert!(topic.urls.is_empty());
    assert!(topic.heading_titles.is_empty());
    assert_eq!(topic.deadline, None);
    assert_eq!(topic.start, None);
    assert_eq!(topic.complete, None);
    assert_eq!(topic.expected, 0);
    assert_eq!(topic.duration, 0);
    assert_eq!(topic.heading_depth, 0);
    assert!(!topic.nowiki);
}

#[test]
fn new_task_and_new_yaml_data_begin_on_new_year() {
    let task = Task::new();
    assert_eq!((task.ys, task.ms, task.ds, task.ye, task.me, task.de), (0, 1, 1, 0, 1, 1));
    assert_eq!(task.duration, 0);
    assert!(task.label.is_empty() && task.src.is_empty());
    let data = YamlData::new();
    assert_eq!((data.ys, data.ms, data.ds, data.ye, data.me, data.de), (0, 1, 1, 0, 1, 1));
    assert!(data.heading().is_empty());
}

#[test]
fn headings_are_appended() {
    let mut data = YamlData::new();
    data.append_heading(&t("One"));
    data.append_heading(&t(" Two"));
    assert_eq!(data.heading(), "One Two");
}

#[test]
fn plain_topic_costs_its_text() {
    let mut r = record();
    r.req = vec![t("b.yaml"), t("a.yaml"), t("b.yaml")];
    r.incl = vec![t("z.yaml"), t("y.yaml")];
    r.data.main = t("12345");
    r.data.pre = t("é");
    r.data.post = t("xy");
    let node = create_topic(&t("thm_pythagorean_theorem.yaml"), r).ok().unwrap();
    assert_eq!(node.path, "thm_pythagorean_theorem.yaml");
    assert_eq!(node.data().env, "thm");
    assert_eq!(node.data().label, "Pythagorean Theorem");
    // One, and five, two and two bytes.
    assert_eq!(node.cost, 10);
    assert_eq!(node.dag_cost(), 10);
    assert_eq!(node.after, vec![t("a.yaml"), t("b.yaml")]);
    assert_eq!(node.before, vec![t("y.yaml"), t("z.yaml")]);
    assert_eq!(node.deadline, None);
    assert_eq!(node.num_predecessors(), 0);
    assert_eq!(node.num_successors(), 0);
    assert!(!node.sorted);
    assert_eq!(node.data().main, "12345");
}

#[test]
fn label_in_the_record_takes_precedence() {
    let mut r = record();
    r.data.label = t("my own label");
    let node = create_topic(&t("def_something_else.yaml"), r).ok().unwrap();
    assert_eq!(node.data().label, "my own label");
    assert_eq!(node.data().env, "def");
}

#[test]
fn task_costs_the_days_it_took() {
    let mut r = record();
    r.data.start = Some(vec![2024, 1, 1]);
    r.data.complete = Some(vec![2024, 1, 31]);
    r.data.expected = 7;
    r.data.main = t("a long text that does not count");
    let node = create_topic(&t("task_write_report.yaml"), r).ok().unwrap();
    assert_eq!(node.data().duration, 30);
    assert_eq!(node.cost, 31);
    assert_eq!(node.data().label, "Write Report");
}

#[test]
fn task_over_a_leap_day() {
    let mut r = record();
    r.data.start = Some(vec![2024, 2, 28]);
    r.data.complete = Some(vec![2024, 3, 1]);
    let node = create_topic(&t("task_leap.yaml"), r).ok().unwrap();
    assert_eq!(node.data().duration, 2);
    assert_eq!(node.cost, 3);
    let mut same_day = record();
    same_day.data.start = Some(vec![2023, 5, 5]);
    same_day.data.complete = Some(vec![2023, 5, 5]);
    let node = create_topic(&t("task_quick.yaml"), same_day).ok().unwrap();
    assert_eq!(node.data().duration, 0);
    assert_eq!(node.cost, 1);
}

#[test]
fn open_task_costs_what_is_expected() {
    let mut r = record();
    r.data.start = Some(vec![2024, 1, 1]);
    r.data.expected = 7;
    let node = create_topic(&t("task_plan.yaml"), r).ok().unwrap();
    assert_eq!(node.cost, 8);
    assert_eq!(node.data().duration, 0);
}

#[test]
fn task_with_a_day_that_is_none_is_refused() {
    let mut r = record();
    r.data.start = Some(vec![2023, 2, 29]);
    r.data.complete = Some(vec![2023, 3, 1]);
    assert_eq!(create_topic(&t("task_x.yaml"), r).err(), Some(TopicError::BadDate));
    let mut short = record();
    short.data.start = Some(vec![2023, 2]);
    short.data.complete = Some(vec![2023, 3, 1]);
    assert_eq!(create_topic(&t("task_x.yaml"), short).err(), Some(TopicError::BadDate));
    // The same days are no concern of a topic that is no task.
    let mut plain = record();
    plain.data.start = Some(vec![2023, 2, 29]);
    plain.data.complete = Some(vec![2023, 3, 1]);
    assert!(create_topic(&t("thm_x.yaml"), plain).is_ok());
}

#[test]
fn task_completed_before_it_began_is_refused() {
    let mut r = record();
    r.data.start = Some(vec![2024, 1, 31]);
    r.data.complete = Some(vec![2024, 1, 1]);
    assert_eq!(create_topic(&t("task_x.yaml"), r).err(), Some(TopicError::CompletedBeforeStart));
}

#[test]
fn deadline_is_taken_over() {
    let mut r = record();
    r.data.deadline = Some(vec![2024, 6, 1]);
    let node = create_topic(&t("task_due.yaml"), r).ok().unwrap();
    assert_eq!(node.deadline, Some(Deadline { year: 2024, month: 6, day: 1 }));
    assert_eq!(node.data().deadline, Some(vec![2024, 6, 1]));
    let mut short = record();
    short.data.deadline = Some(vec![2024, 6]);
    assert_eq!(create_topic(&t("thm_due.yaml"), short).err(), Some(TopicError::BadDate));
}

#[test]
fn record_label_has_a_capital_on_every_word() {
    let r = YamlRecord { after: vec![t("b"), t("a"), t("a")], before: vec![], data: YamlData::new() };
    let node = update_fields(&t("def_group_of_units.v2.yaml"), r).ok().unwrap();
    assert_eq!(node.data().env, "def");
    // Cut at the first full stop, and every word with a capital.
    assert_eq!(node.data().label, "Group Of Units");
    assert_eq!(node.after, vec![t("a"), t("b")]);
    assert_eq!(node.cost, 1);
}

#[test]
fn checklist_item_counts_its_days() {
    let mut data = YamlData::new();
    data.ys = 2024;
    data.ms = 1;
    data.ds = 1;
    data.ye = 2024;
    data.me = 1;
    data.de = 30;
    data.main = t("some text");
    let r = YamlRecord { after: vec![], before: vec![], data };
    let node = update_fields(&t("checked_clean_up.yaml"), r).ok().unwrap();
    assert_eq!(node.data().duration, 30);
    assert_eq!(node.cost, 1);
    assert_eq!(node.data().label, "Clean Up");

    let mut last_day = YamlData::new();
    last_day.ys = 2024;
    last_day.ye = 2024;
    last_day.de = 31;
    let r = YamlRecord { after: vec![], before: vec![], data: last_day };
    assert_eq!(update_fields(&t("unchecked_x.yaml"), r).err(), Some(TopicError::BadDate));

    let mut other = YamlData::new();
    other.main = t("abc");
    other.post = t("de");
    let r = YamlRecord { after: vec![], before: vec![], data: other };
    let node = update_fields(&t("thm_x.yaml"), r).ok().unwrap();
    assert_eq!(node.cost, 6);
    assert_eq!(node.data().duration, 0);
}
