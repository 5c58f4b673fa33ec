use dataspringflow_rs::diff::{find_differences, Difference};

fn l(entries: &[(&str, &str)]) -> Vec<(String, String)> {
    entries.iter().map(|(p, h)| (p.to_string(), h.to_string())).collect()
}

fn text(d: &Difference) -> String {
    match d {
        Difference::Changed(p) => format!("changed {}", p),
        Difference::New(p) => format!("new {}", p),
    }
}

#[test]
fn differences_list_changed_and_new_in_current_order() {
    let old = l(&[("a.txt", "11"), ("dir", "22"), ("gone.txt", "33")]);
    let current = l(&[("new.txt", "44"), ("a.txt", "99"), ("dir", "22")]);
    let got: Vec<String> = find_differences(&old, &current).iter().map(text).collect();
    assert_eq!(got, vec!["new new.txt".to_string(), "changed a.txt".to_string()]);
}

#[test]
fn no_differences_for_an_unchanged_tree() {
    let old = l(&[("a", "1"), ("b", "2")]);
    assert!(find_differences(&old, &old.clone()).is_empty());
}

#[test]
fn a_later_record_of_a_path_wins() {
    let old = l(&[("a", "1"), ("a", "2")]);
    assert!(find_differences(&old, &l(&[("a", "2")])).is_empty());
    assert_eq!(find_differences(&old, &l(&[("a", "1")])).len(), 1);
}
