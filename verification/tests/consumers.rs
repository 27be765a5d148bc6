use ngx_laser::{
    Consumers, DataMap, DataValue, FormatVisitor, LineConsumer, Parser, ResourceConsumer,
    StatusConsumer, VisitorsConsumer,
};

const FORMAT: &str = r#"$remote_addr - $remote_user [$time_local] "$request" $status $body_bytes_sent "$http_referer" "$http_user_agent""#;

fn line(addr: &str, day: u8, path: &str, status: u16) -> ngx_laser::LogLine {
    let parser = Parser::new(FORMAT).unwrap();
    let text = format!(
        r#"{} - - [{:02}/Jan/2021:02:49:30 +0000] "GET {} HTTP/1.1" {} 10 "-" "agent""#,
        addr, day, path, status
    );
    parser.parse(&text).unwrap()
}

fn get<'a>(m: &'a DataMap, k: &str) -> Option<&'a DataValue> {
    m.entries.iter().find(|(name, _)| name == k).map(|(_, v)| v)
}

fn number(v: Option<&DataValue>) -> usize {
    match v {
        Some(DataValue::Number(n)) => *n,
        other => panic!("not a number: {:?}", other),
    }
}

fn text(v: Option<&DataValue>) -> String {
    match v {
        Some(DataValue::Text(s)) => s.clone(),
        other => panic!("not a text: {:?}", other),
    }
}

fn object(v: Option<&DataValue>) -> &DataMap {
    match v {
        Some(DataValue::Object(m)) => m,
        other => panic!("not an object: {:?}", other),
    }
}

#[test]
fn resources_are_counted() {
    let mut c = ResourceConsumer::default();
    c.eat_line(&line("1.1.1.1", 1, "/a.png", 200));
    c.eat_line(&line("1.1.1.1", 1, "/index.html", 200));
    c.eat_line(&line("1.1.1.1", 1, "/x.woff2", 200));
    c.eat_line(&line("1.1.1.1", 1, "/y.jpeg", 200));
    assert_eq!(c.counter, 3);
    assert_eq!(number(get(&c.get_data(), "resources_count")), 3);
    let j = c.to_json();
    assert_eq!(number(get(object(get(&j, "resources")), "count")), 3);
    c.reset();
    assert_eq!(c.counter, 0);
}

#[test]
fn statuses_are_counted() {
    let mut c = StatusConsumer::default();
    c.eat_line(&line("1.1.1.1", 1, "/", 200));
    c.eat_line(&line("1.1.1.1", 1, "/", 404));
    c.eat_line(&line("1.1.1.1", 1, "/", 200));
    assert_eq!(c.counter.get(&200), Some(&2));
    assert_eq!(c.counter.get(&404), Some(&1));
    let d = c.get_data();
    assert_eq!(d.entries.len(), 1);
    let summary = object(get(&d, "status"));
    assert_eq!(summary.entries.len(), 2);
    assert_eq!(number(get(summary, "200")), 2);
    assert_eq!(number(get(summary, "404")), 1);
    let j = c.to_json();
    let summary = object(get(&j, "status"));
    assert_eq!(text(get(summary, "200")), "2");
    assert_eq!(text(get(summary, "404")), "1");
}

#[test]
fn visitors_are_counted_once() {
    let mut c = VisitorsConsumer::default();
    c.eat_line(&line("1.1.1.1", 1, "/", 200));
    c.eat_line(&line("2.2.2.2", 1, "/", 200));
    c.eat_line(&line("1.1.1.1", 1, "/", 200));
    let d = c.get_data();
    assert_eq!(number(get(object(get(&d, "visitors")), "count")), 2);
    c.reset();
    let d = c.get_data();
    assert_eq!(number(get(object(get(&d, "visitors")), "count")), 0);
}

#[test]
fn consumers_report_hits_and_dates() {
    let mut all = Consumers::new();
    all.add_consumer(Box::new(ResourceConsumer::default()));
    all.add_consumer(Box::new(VisitorsConsumer::default()));
    all.eat_line(line("1.1.1.1", 3, "/a.css", 200));
    all.eat_line(line("2.2.2.2", 5, "/", 200));
    all.eat_line(line("1.1.1.1", 9, "/b.js", 500));
    let d = all.get_data();
    assert_eq!(number(get(&d, "hits")), 3);
    assert_eq!(text(get(&d, "date_start")), "2021/01/03T02:49:30");
    assert_eq!(text(get(&d, "date_end")), "2021/01/09T02:49:30");
    assert_eq!(number(get(&d, "resources_count")), 2);
    assert_eq!(number(get(object(get(&d, "visitors")), "count")), 2);
    let (lines, _mb) = all.end_eating();
    assert_eq!(lines, 3);
    all.reset();
    let d = all.get_data();
    assert_eq!(number(get(&d, "resources_count")), 0);
    assert_eq!(number(get(object(get(&d, "visitors")), "count")), 0);
    assert_eq!(number(get(&d, "hits")), 3);
}

#[test]
fn reset_keeps_status_counts() {
    let mut all = Consumers::new();
    all.add_consumer(Box::new(StatusConsumer::default()));
    all.eat_line(line("1.1.1.1", 3, "/", 404));
    all.reset();
    let d = all.get_data();
    assert_eq!(number(get(object(get(&d, "status")), "404")), 1);
}

#[test]
fn insert_replaces_and_extend_merges() {
    let mut m = DataMap::new();
    m.insert("a".to_string(), DataValue::Number(1));
    m.insert("b".to_string(), DataValue::Number(2));
    m.insert("a".to_string(), DataValue::Number(3));
    assert_eq!(m.entries.len(), 2);
    assert_eq!(number(get(&m, "a")), 3);
    let mut other = DataMap::new();
    other.insert("b".to_string(), DataValue::Text("x".to_string()));
    other.insert("c".to_string(), DataValue::Number(4));
    m.extend(other);
    assert_eq!(m.entries.len(), 3);
    assert_eq!(text(get(&m, "b")), "x");
    assert_eq!(number(get(&m, "c")), 4);
}

#[test]
fn no_consumer_reports_only_hits_and_dates() {
    let mut all = Consumers::new();
    all.eat_line(line("1.1.1.1", 4, "/", 200));
    let d = all.get_data();
    let names: Vec<&str> = d.entries.iter().map(|(k, _)| k.as_str()).collect();
    assert_eq!(names, vec!["date_end", "date_start", "hits"]);
    assert_eq!(number(get(&d, "hits")), 1);
    assert_eq!(text(get(&d, "date_start")), "2021/01/04T02:49:30");
    assert_eq!(text(get(&d, "date_end")), "2021/01/04T02:49:30");
}

#[test]
fn summaries_are_merged_with_names_in_order() {
    let mut all = Consumers::new();
    all.add_consumer(Box::new(StatusConsumer::default()));
    all.add_consumer(Box::new(ResourceConsumer::default()));
    all.add_consumer(Box::new(VisitorsConsumer::default()));
    all.eat_line(line("1.1.1.1", 2, "/a.png", 301));
    all.eat_line(line("3.3.3.3", 6, "/", 200));
    let d = all.get_data();
    let names: Vec<&str> = d.entries.iter().map(|(k, _)| k.as_str()).collect();
    assert_eq!(
        names,
        vec!["date_end", "date_start", "hits", "resources_count", "status", "visitors"]
    );
    let status = object(get(&d, "status"));
    let codes: Vec<&str> = status.entries.iter().map(|(k, _)| k.as_str()).collect();
    assert_eq!(codes, vec!["200", "301"]);
    assert_eq!(number(get(&d, "resources_count")), 1);
    assert_eq!(number(get(object(get(&d, "visitors")), "count")), 2);
}

#[test]
fn every_consumer_eats_each_line() {
    let mut all = Consumers::new();
    all.add_consumer(Box::new(ResourceConsumer::default()));
    all.add_consumer(Box::new(ResourceConsumer::default()));
    all.eat_line(line("1.1.1.1", 2, "/a.png", 200));
    all.eat_line(line("1.1.1.1", 2, "/b.gif", 200));
    for c in &all.consumers {
        assert_eq!(number(get(&c.get_data(), "resources_count")), 2);
    }
    let d = all.get_data();
    assert_eq!(d.entries.len(), 4);
    assert_eq!(number(get(&d, "resources_count")), 2);
}

#[test]
fn status_codes_come_in_text_order() {
    let mut c = StatusConsumer::default();
    c.eat_line(&line("1.1.1.1", 1, "/", 404));
    c.eat_line(&line("1.1.1.1", 1, "/", 1000));
    c.eat_line(&line("1.1.1.1", 1, "/", 200));
    let d = c.get_data();
    let codes: Vec<&str> = object(get(&d, "status")).entries.iter().map(|(k, _)| k.as_str()).collect();
    assert_eq!(codes, vec!["1000", "200", "404"]);
}

#[test]
fn insert_keeps_names_in_order() {
    let mut m = DataMap::new();
    m.insert("b".to_string(), DataValue::Number(1));
    m.insert("ab".to_string(), DataValue::Number(2));
    m.insert("a".to_string(), DataValue::Number(3));
    m.insert("é".to_string(), DataValue::Number(4));
    m.insert("B".to_string(), DataValue::Number(5));
    let names: Vec<&str> = m.entries.iter().map(|(k, _)| k.as_str()).collect();
    assert_eq!(names, vec!["B", "a", "ab", "b", "é"]);
}
