use srenamer::templates::{templates, TemplateGroup};
use std::collections::HashSet;

fn keys(groups: &[TemplateGroup]) -> HashSet<String> {
    groups.iter().map(|g| g.template.clone()).collect()
}

#[test]
fn simple() {
    let filenames: Vec<String> = (1..=20).map(|e| format!("Episode {}.mp4", e)).collect();
    let mut truth = HashSet::new();
    truth.insert(String::from(r"Episode (\d+)\.mp4"));
    let res = keys(&templates(&filenames));
    assert_eq!(&truth, &res);
}

#[test]
fn multivar() {
    let mut filenames: Vec<String> = Vec::new();
    for lang in ["EN", "FR"] {
        for e in 1..=6 {
            filenames.push(format!("Episode {} {}.mp4", lang, e));
        }
    }
    let mut truth = HashSet::new();
    truth.insert(String::from(r"Episode (.+) (\d+)\.mp4"));
    let res = keys(&templates(&filenames));
    assert_eq!(&truth, &res);
}

#[test]
fn title() {
    let filenames: Vec<String> = (1..=10)
        .map(|e| format!("Episode {} - {}.mp4", e, lipsum::lipsum_title()))
        .collect();
    let mut truth = HashSet::new();
    truth.insert(String::from(r"Episode (\d+) \- (.+)\.mp4"));
    let res = keys(&templates(&filenames));
    assert_eq!(&truth, &res);
}

#[test]
fn multi_template() {
    let mut filenames: Vec<String> = (1..=9)
        .map(|e| format!("Harry Potter {}.mp4", e))
        .chain((1..=4).map(|e| format!("Fantastic Beasts and Where to Find Them {}.mp4", e)))
        .collect();
    filenames.push(String::from("README.txt"));
    let mut truth = HashSet::new();
    truth.insert(String::from(r"Harry Potter (\d+)\.mp4"));
    truth.insert(String::from(
        r"Fantastic Beasts and Where to Find Them (\d+)\.mp4",
    ));
    let res = keys(&templates(&filenames));
    assert_eq!(&truth, &res);
}

#[test]
fn dates() {
    let mut filenames: Vec<String> = Vec::new();
    for y in 2014..=2015 {
        for m in 1..=3 {
            for d in 1..=3 {
                filenames.push(format!("{}-{}-{}.jpg", y, m, d));
            }
        }
    }
    let mut truth = HashSet::new();
    truth.insert(String::from(r"(\d+)\-(\d+)\-(\d+)\.jpg"));
    let res = keys(&templates(&filenames));
    assert_eq!(&truth, &res);
}

#[test]
fn regex_in_title() {
    let filenames: Vec<String> = (1..=20)
        .map(|e| format!("[1080p] Episode {}.mkv", e))
        .collect();
    let mut truth = HashSet::new();
    truth.insert(String::from(r"\[1080p\] Episode (\d+)\.mkv"));
    let res = keys(&templates(&filenames));
    assert_eq!(&truth, &res);
}
