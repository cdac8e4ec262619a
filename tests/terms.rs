use sic::encode::{to_net, EncodeError};
use sic::parse::{from_string, ParseError};
use sic::term::{copy, name_idx, namespace, new_name, reduce, to_string, Term};

fn parse(s: &str) -> Term {
    from_string(s.as_bytes()).unwrap()
}

fn show(t: &Term) -> String {
    String::from_utf8(to_string(t)).unwrap()
}

#[test]
fn new_name_sequence() {
    assert_eq!(new_name(0), b"".to_vec());
    assert_eq!(new_name(1), b"a".to_vec());
    assert_eq!(new_name(26), b"z".to_vec());
    assert_eq!(new_name(27), b"aa".to_vec());
    assert_eq!(new_name(28), b"ba".to_vec());
}

#[test]
fn name_idx_inverts_new_name() {
    for i in [1u32, 2, 25, 26, 27, 52, 53, 700, 18279] {
        assert_eq!(name_idx(&new_name(i)), i);
    }
    assert_eq!(name_idx(&b"a".to_vec()), 1);
}

#[test]
fn namespace_renames() {
    assert_eq!(namespace(&b"id".to_vec(), 12, &b"x".to_vec()), b"id#12#x".to_vec());
    assert_eq!(namespace(&b"id".to_vec(), 0, &b"-".to_vec()), b"-".to_vec());
}

#[test]
fn copy_renames_binders_and_variables() {
    let t = parse("= a - x \\y a");
    let c = copy(&b"s".to_vec(), 3, &t);
    assert_eq!(show(&c), "= s#3#a - s#3#x\n\\s#3#y s#3#a");
}

#[test]
fn printer_layout() {
    let t = parse("= a b * /a b");
    assert_eq!(show(&t), "= a b *\n/a b");
    let t = parse("| \\x x *");
    assert_eq!(show(&t), "| \\x x *");
}

#[test]
fn parse_print_round_trip() {
    for src in ["\\x x", "/\\f f *", "| * \\y y", "= a b * /a b", "\\x = p q x | q p"] {
        let t = parse(src);
        let printed = to_string(&t);
        let again = from_string(&printed).unwrap();
        assert_eq!(to_string(&again), printed);
    }
}

#[test]
fn comments_are_skipped() {
    let t = parse("(a (nested / comment) here) \\x x");
    assert_eq!(show(&t), "\\x x");
}

#[test]
fn definitions_are_copied_per_use() {
    let t = parse(":id \\x x /id id");
    assert_eq!(show(&t), "/\\id#0#x id#0#x \\id#1#x id#1#x");
}

#[test]
fn parse_errors() {
    assert_eq!(from_string(b"").unwrap_err(), ParseError::UnexpectedEnd);
    assert_eq!(from_string(b"/*").unwrap_err(), ParseError::UnexpectedEnd);
    assert_eq!(from_string(b"\\*").unwrap_err(), ParseError::MissingName { pos: 1 });
    assert_eq!(from_string(b"= a").unwrap_err(), ParseError::UnexpectedEnd);
    assert_eq!(from_string(b"#").unwrap_err(), ParseError::MissingName { pos: 0 });
}

#[test]
fn encode_errors() {
    assert!(matches!(to_net(&parse("\\x y")), Err(EncodeError::Unbound { nam }) if nam == b"y".to_vec()));
    assert!(matches!(to_net(&parse("\\x /x x")), Err(EncodeError::NotAffine { nam }) if nam == b"x".to_vec()));
    assert!(matches!(to_net(&parse("\\_ _")), Err(EncodeError::NotAffine { .. })));
}

#[test]
fn reduce_beta() {
    let t = parse("/\\x x *");
    assert_eq!(show(&reduce(&t).unwrap()), "*");
    let t = parse("\\x x");
    assert_eq!(show(&reduce(&t).unwrap()), "\\a a");
    assert!(reduce(&parse("y")).is_none());
}

#[test]
fn normal_form_decodes_to_itself() {
    let t = parse("| \\x x *");
    assert_eq!(show(&reduce(&t).unwrap()), "| \\a a *");
    let t = parse("\\f \\g /f g");
    assert_eq!(show(&reduce(&t).unwrap()), "\\a \\b /a b");
}

#[test]
fn re_encoding_a_normal_form_needs_no_rule() {
    let t = parse("/\\p = a b p | b a | * \\y y");
    let norm = reduce(&t).unwrap();
    let mut net = to_net(&norm).unwrap();
    let stats = sic::net::reduce(&mut net);
    assert_eq!(stats.rules, 0);
}

#[test]
fn unused_binder_prints_as_dash() {
    let t = parse("\\x *");
    assert_eq!(show(&reduce(&t).unwrap()), "\\- *");
}
