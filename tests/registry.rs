use kola::ast::AST;
use kola::error::AnalysisError;
use kola::text::Position;
use kola::workspace::{CompletionKind, ContentChange, Range, Workspace};

fn pos(line: u32, character: u32) -> Position {
    Position { line, character }
}

fn delta(start: Position, end: Position, text: &str) -> ContentChange {
    ContentChange { range: Some(Range { start, end }), text: text.to_string() }
}

fn names(a: &AST) -> Vec<String> {
    a.functions.iter().map(|f| f.name.clone()).collect()
}

fn completion_names(w: &mut Workspace, uri: &String) -> Result<Vec<String>, AnalysisError> {
    let items = w.complete(uri)?;
    for item in &items {
        assert_eq!(item.kind, CompletionKind::Function);
    }
    Ok(items.into_iter().map(|i| i.name).collect())
}

#[test]
fn completion_follows_edits_and_close() {
    let mut w = Workspace::new().unwrap();
    let uri = "file:///main.kt".to_string();
    w.open(uri.clone(), "fun a() {}\nfun b() {}".to_string()).unwrap();
    assert_eq!(completion_names(&mut w, &uri).unwrap(), vec!["a", "b"]);
    w.change(&uri, &delta(pos(0, 0), pos(0, 0), "fun c() {}\n")).unwrap();
    assert_eq!(completion_names(&mut w, &uri).unwrap(), vec!["c", "a", "b"]);
    w.close(&uri).unwrap();
    assert_eq!(w.complete(&uri).err(), Some(AnalysisError::UnknownDocument));
}

#[test]
fn out_of_range_change_is_rejected() {
    let mut w = Workspace::new().unwrap();
    let uri = "file:///one.kt".to_string();
    w.open(uri.clone(), "fun a() {}".to_string()).unwrap();
    let before = w.bytes(&uri).unwrap();
    let r = w.change(&uri, &delta(pos(0, 0), pos(1000, 0), "x"));
    assert_eq!(r, Err(AnalysisError::RangeError));
    assert_eq!(w.bytes(&uri).unwrap(), before);
    assert_eq!(completion_names(&mut w, &uri).unwrap(), vec!["a"]);
}

#[test]
fn column_past_line_end_is_rejected() {
    let mut w = Workspace::new().unwrap();
    let uri = "file:///cols.kt".to_string();
    w.open(uri.clone(), "ab\ncd".to_string()).unwrap();
    assert_eq!(w.change(&uri, &delta(pos(0, 3), pos(0, 3), "x")), Err(AnalysisError::RangeError));
    assert_eq!(w.change(&uri, &delta(pos(1, 1), pos(0, 1), "x")), Err(AnalysisError::RangeError));
    assert_eq!(w.bytes(&uri).unwrap(), b"ab\ncd".to_vec());
    w.change(&uri, &delta(pos(0, 2), pos(1, 0), "")).unwrap();
    assert_eq!(w.bytes(&uri).unwrap(), b"abcd".to_vec());
}

#[test]
fn lifecycle_errors() {
    let mut w = Workspace::new().unwrap();
    let uri = "file:///x.kt".to_string();
    let other = "file:///y.kt".to_string();
    assert_eq!(w.close(&uri), Err(AnalysisError::UnknownDocument));
    assert_eq!(w.change(&uri, &delta(pos(0, 0), pos(0, 0), "x")), Err(AnalysisError::UnknownDocument));
    assert_eq!(w.declared_function_names(&uri).err(), Some(AnalysisError::UnknownDocument));
    w.open(uri.clone(), "fun f() {}".to_string()).unwrap();
    assert_eq!(w.open(uri.clone(), "fun g() {}".to_string()), Err(AnalysisError::AlreadyOpen));
    assert_eq!(w.bytes(&uri).unwrap(), b"fun f() {}".to_vec());
    assert!(w.bytes(&other).is_none());
    w.close(&uri).unwrap();
    assert!(w.bytes(&uri).is_none());
    w.open(uri.clone(), "fun g() {}".to_string()).unwrap();
    assert_eq!(names(&w.declared_function_names(&uri).unwrap()), vec!["g"]);
}

#[test]
fn documents_are_independent() {
    let mut w = Workspace::new().unwrap();
    let a = "file:///a.kt".to_string();
    let b = "file:///b.kt".to_string();
    w.open(a.clone(), "fun one() {}".to_string()).unwrap();
    w.open(b.clone(), "fun two() {}".to_string()).unwrap();
    assert_eq!(w.change(&a, &delta(pos(5, 0), pos(5, 0), "x")), Err(AnalysisError::RangeError));
    w.change(&b, &delta(pos(0, 4), pos(0, 7), "three")).unwrap();
    assert_eq!(names(&w.declared_function_names(&a).unwrap()), vec!["one"]);
    assert_eq!(names(&w.declared_function_names(&b).unwrap()), vec!["three"]);
    w.close(&a).unwrap();
    assert_eq!(names(&w.declared_function_names(&b).unwrap()), vec!["three"]);
}

#[test]
fn full_replacement_reparses() {
    let mut w = Workspace::new().unwrap();
    let uri = "file:///full.kt".to_string();
    w.open(uri.clone(), "fun a() {}".to_string()).unwrap();
    assert_eq!(names(&w.declared_function_names(&uri).unwrap()), vec!["a"]);
    let change = ContentChange { range: None, text: "fun x() {}\nfun y() {}".to_string() };
    w.change(&uri, &change).unwrap();
    assert_eq!(names(&w.declared_function_names(&uri).unwrap()), vec!["x", "y"]);
    assert_eq!(w.document(&uri).unwrap().len_chars(), 21);
}

#[test]
fn reparse_of_same_text_is_equal() {
    let mut w = Workspace::new().unwrap();
    let a = "file:///a.kt".to_string();
    let b = "file:///b.kt".to_string();
    let text = "fun p() {}\nclass K { fun q() {} }\nfun r(x: Int) = x";
    w.open(a.clone(), text.to_string()).unwrap();
    w.open(b.clone(), text.to_string()).unwrap();
    let na = names(&w.declared_function_names(&a).unwrap());
    let nb = names(&w.declared_function_names(&b).unwrap());
    assert_eq!(na, nb);
    assert_eq!(na, vec!["p", "q", "r"]);
    let sa = w.snapshot(&a).unwrap();
    let sb = w.snapshot(&b).unwrap();
    assert_eq!(sa.bytes(), sb.bytes());
}

#[test]
fn incremental_edits_match_full_parse() {
    let mut w = Workspace::new().unwrap();
    let inc = "file:///inc.kt".to_string();
    let full = "file:///full.kt".to_string();
    w.open(inc.clone(), "fun alpha() {}\n".to_string()).unwrap();
    w.change(&inc, &delta(pos(1, 0), pos(1, 0), "fun beta() {}\n")).unwrap();
    w.change(&inc, &delta(pos(0, 4), pos(0, 9), "gamma")).unwrap();
    w.change(&inc, &delta(pos(1, 0), pos(1, 0), "// é 😀 comment\n")).unwrap();
    w.change(&inc, &delta(pos(2, 4), pos(2, 8), "δelta")).unwrap();
    let text = String::from_utf8(w.bytes(&inc).unwrap()).unwrap();
    assert_eq!(text, "fun gamma() {}\n// é 😀 comment\nfun δelta() {}\n");
    w.open(full.clone(), text).unwrap();
    let a = names(&w.declared_function_names(&inc).unwrap());
    let b = names(&w.declared_function_names(&full).unwrap());
    assert_eq!(a, b);
    assert_eq!(a, vec!["gamma", "δelta"]);
}

#[test]
fn cached_result_tracks_edits() {
    let mut w = Workspace::new().unwrap();
    let uri = "file:///cache.kt".to_string();
    let fresh = "file:///fresh.kt".to_string();
    w.open(uri.clone(), "fun a() {}\n".to_string()).unwrap();
    assert_eq!(names(&w.declared_function_names(&uri).unwrap()), vec!["a"]);
    assert_eq!(names(&w.declared_function_names(&uri).unwrap()), vec!["a"]);
    assert_eq!(completion_names(&mut w, &uri).unwrap(), vec!["a"]);
    // an edit inside a comment-free region that keeps the names
    w.change(&uri, &delta(pos(0, 9), pos(0, 9), " ")).unwrap();
    assert_eq!(completion_names(&mut w, &uri).unwrap(), vec!["a"]);
    w.change(&uri, &delta(pos(0, 4), pos(0, 5), "z")).unwrap();
    assert_eq!(completion_names(&mut w, &uri).unwrap(), vec!["z"]);
    let text = String::from_utf8(w.bytes(&uri).unwrap()).unwrap();
    w.open(fresh.clone(), text).unwrap();
    assert_eq!(
        names(&w.declared_function_names(&uri).unwrap()),
        names(&w.declared_function_names(&fresh).unwrap())
    );
}

#[test]
fn document_without_functions_completes_empty() {
    let mut w = Workspace::new().unwrap();
    let uri = "file:///empty.kt".to_string();
    w.open(uri.clone(), String::new()).unwrap();
    assert_eq!(completion_names(&mut w, &uri).unwrap(), Vec::<String>::new());
    w.change(&uri, &delta(pos(0, 0), pos(0, 0), "val x = 1\n")).unwrap();
    assert_eq!(completion_names(&mut w, &uri).unwrap(), Vec::<String>::new());
}

#[test]
fn snapshot_pairs_text_and_tree() {
    let mut w = Workspace::new().unwrap();
    let uri = "file:///snap.kt".to_string();
    assert!(w.snapshot(&uri).is_none());
    assert!(w.parse_tree(&uri).is_none());
    w.open(uri.clone(), "fun s() {}".to_string()).unwrap();
    assert!(w.snapshot(&uri).unwrap().bytes().clone() == b"fun s() {}".to_vec());
    w.change(&uri, &delta(pos(0, 4), pos(0, 5), "t")).unwrap();
    let snap = w.snapshot(&uri).unwrap();
    assert_eq!(snap.bytes().clone(), b"fun t() {}".to_vec());
    assert_eq!(*snap.bytes(), w.bytes(&uri).unwrap());
    assert_eq!(w.parse_tree(&uri).unwrap().bytes().clone(), b"fun t() {}".to_vec());
    w.close(&uri).unwrap();
    assert!(w.snapshot(&uri).is_none());
}

#[test]
fn repeated_query_is_served_from_cache() {
    let mut w = Workspace::new().unwrap();
    let uri = "file:///memo.kt".to_string();
    w.open(uri.clone(), "fun a() {}\nfun b() {}".to_string()).unwrap();
    assert_eq!(w.evaluations(), 0);
    assert_eq!(names(&w.declared_function_names(&uri).unwrap()), vec!["a", "b"]);
    assert_eq!(w.evaluations(), 1);
    assert_eq!(names(&w.declared_function_names(&uri).unwrap()), vec!["a", "b"]);
    assert_eq!(completion_names(&mut w, &uri).unwrap(), vec!["a", "b"]);
    assert_eq!(w.evaluations(), 1);
    w.change(&uri, &delta(pos(1, 4), pos(1, 5), "q")).unwrap();
    assert_eq!(completion_names(&mut w, &uri).unwrap(), vec!["a", "q"]);
    assert_eq!(w.evaluations(), 2);
    assert_eq!(completion_names(&mut w, &uri).unwrap(), vec!["a", "q"]);
    assert_eq!(w.evaluations(), 2);
}

#[test]
fn reopen_after_close_forgets_cache() {
    let mut w = Workspace::new().unwrap();
    let uri = "file:///re.kt".to_string();
    w.open(uri.clone(), "fun old() {}".to_string()).unwrap();
    assert_eq!(completion_names(&mut w, &uri).unwrap(), vec!["old"]);
    w.close(&uri).unwrap();
    w.open(uri.clone(), "fun new1() {}\nfun new2() {}".to_string()).unwrap();
    assert_eq!(completion_names(&mut w, &uri).unwrap(), vec!["new1", "new2"]);
}

#[test]
fn whole_text_reparse_of_same_text_is_equal() {
    let mut w = Workspace::new().unwrap();
    let uri = "file:///same.kt".to_string();
    let text = "fun m() {}\nfun n() = 1";
    w.open(uri.clone(), text.to_string()).unwrap();
    let first = names(&w.declared_function_names(&uri).unwrap());
    let before = w.parse_tree(&uri).unwrap();
    w.change(&uri, &ContentChange { range: None, text: text.to_string() }).unwrap();
    let after = w.parse_tree(&uri).unwrap();
    assert_eq!(before.bytes(), after.bytes());
    assert_eq!(names(&w.declared_function_names(&uri).unwrap()), first);
    assert_eq!(w.bytes(&uri).unwrap(), text.as_bytes().to_vec());
}
