use unlock_all::store::{all, choice_for, init, len, output_for, Store};

fn sorted_all(st: &Store) -> Vec<(u32, u32)> {
    let mut v = all(st);
    v.sort();
    v
}

#[test]
fn missing_file_holds_no_choices() {
    let st = init(None);
    assert_eq!(len(&st), 0);
    assert_eq!(all(&st), vec![]);
    assert_eq!(choice_for(&st, 7), None);
}

#[test]
fn lines_are_read_with_trimmed_fields() {
    let st = init(Some("10=20=30\n 11 = 21 = 31 \r\n12=22=0\n"));
    assert_eq!(len(&st), 3);
    assert_eq!(choice_for(&st, 10), Some((20, 30)));
    assert_eq!(choice_for(&st, 11), Some((21, 31)));
    assert_eq!(choice_for(&st, 12), Some((22, 0)));
}

#[test]
fn bad_lines_are_skipped() {
    let text = "0=5=6\n7=0=8\n9=10\n1=x=3\n\n=1=2\n4=5=6=extra\n+13=14=15\n4294967296=1=1\n";
    let st = init(Some(text));
    assert_eq!(sorted_all(&st), vec![(4, 5), (13, 14)]);
    assert_eq!(choice_for(&st, 4), Some((5, 6)));
    assert_eq!(choice_for(&st, 0), None);
    assert_eq!(choice_for(&st, 7), None);
}

#[test]
fn a_later_line_replaces_an_earlier_one() {
    let st = init(Some("5=1=2\n5=3=4"));
    assert_eq!(len(&st), 1);
    assert_eq!(choice_for(&st, 5), Some((3, 4)));
}

#[test]
fn unicode_white_space_is_trimmed() {
    let st = init(Some("\u{3000}8\u{a0}=9=\t10\u{2009}"));
    assert_eq!(choice_for(&st, 8), Some((9, 10)));
}

#[test]
fn output_is_the_default_look_when_zero_or_the_prototype() {
    let st = init(Some("1=2=3\n4=5=0\n6=7=6\n"));
    assert_eq!(output_for(&st, 1), Some(3));
    assert_eq!(output_for(&st, 4), None);
    assert_eq!(output_for(&st, 6), None);
    assert_eq!(output_for(&st, 99), None);
}

#[test]
fn set_writes_sorted_lines() {
    let mut st = init(None);
    unlock_all::store::set(&mut st, 9, 1, 2);
    unlock_all::store::set(&mut st, 100, 3, 4);
    let text = unlock_all::store::set(&mut st, 10, 5, 6);
    // string order: "100=" < "10=" < "9=", as '=' sorts after the digits
    assert_eq!(text, "100=3=4\n10=5=6\n9=1=2\n");
    let mut lines = vec!["9=1=2", "100=3=4", "10=5=6"];
    lines.sort();
    assert_eq!(lines.join("\n") + "\n", text);
    let text = unlock_all::store::set(&mut st, 9, 7, 8);
    assert_eq!(text, "100=3=4\n10=5=6\n9=7=8\n");
    assert_eq!(len(&st), 3);
}

#[test]
fn set_then_choice_for_reads_back() {
    let mut st = init(Some("3=4=5\n"));
    unlock_all::store::set(&mut st, 3, 40, 50);
    unlock_all::store::set(&mut st, 1, 2, 0);
    assert_eq!(choice_for(&st, 3), Some((40, 50)));
    assert_eq!(choice_for(&st, 1), Some((2, 0)));
    assert_eq!(len(&st), 2);
}

#[test]
fn written_file_reads_back() {
    let mut st = init(None);
    let mut text = String::new();
    for (p, s, o) in [(4294967295u32, 1u32, 4294967295u32), (1, 2, 3), (20, 30, 0), (2, 9, 9)] {
        text = unlock_all::store::set(&mut st, p, s, o);
    }
    let again = init(Some(&text));
    assert_eq!(sorted_all(&again), sorted_all(&st));
    for p in [4294967295u32, 1, 20, 2] {
        assert_eq!(choice_for(&again, p), choice_for(&st, p));
    }
}

#[test]
fn all_lists_prototype_and_skin() {
    let st = init(Some("2=3=4\n1=5=6\n"));
    assert_eq!(sorted_all(&st), vec![(1, 5), (2, 3)]);
}

#[test]
fn all_has_one_pair_per_choice() {
    let st = init(Some("2=3=4\n1=5=6\n2=7=8\n"));
    assert_eq!(all(&st).len(), len(&st));
    assert_eq!(sorted_all(&st), vec![(1, 5), (2, 7)]);
}
