use peg_pack::compiler::class::Class;
use peg_pack::compiler::generation::{pascal_case, state_const_name, state_function_name};
use peg_pack::compiler::instruction::{Instruction, InstructionId, SeriesId};
use peg_pack::compiler::load::{ClassIr, InstructionIr, Ir};
use peg_pack::compiler::pipeline::Error;
use peg_pack::compiler::series::Series;
use peg_pack::compiler::sorted_set::SortedSet;
use peg_pack::compiler::transform::components::{component_members, component_roots, component_successors, predecessor_lists};
use peg_pack::compiler::transform::normalize::{stage, Rewrite};
use peg_pack::compiler::{CompilerSettings, DebugSymbol, Parser};
use peg_pack::ordered_set::OrderedSet;
use peg_pack::output::Codegen;
use peg_pack::store::Store;
use peg_pack::text::decimal_string;
use peg_pack::tools::{check_version, parse_u32, ToolRequirement, VersionStatus};

fn class(ranges: &[(u8, u8)]) -> ClassIr {
    ClassIr { negated: false, ranges: ranges.to_vec() }
}

fn literal(text: &str, rule: Option<&str>) -> InstructionIr {
    InstructionIr::Series {
        classes: text.bytes().map(|b| class(&[(b, b)])).collect(),
        rule_name: rule.map(|r| r.to_string()),
    }
}

fn success(start: usize, instructions: Vec<InstructionIr>) -> Ir {
    Ir::Success { version: 0, start, instructions }
}

fn load(ir: &Ir) -> Result<Parser, Error> {
    Parser::load(ir, CompilerSettings::normal())
}

fn load_message(ir: &Ir) -> String {
    match load(ir) {
        Err(Error::Load(message)) => message,
        Err(Error::LeftRecursive(_)) => panic!("left recursion reported"),
        Ok(_) => panic!("loaded"),
    }
}

#[test]
fn store_hands_out_keys_in_order() {
    let mut store: Store<SeriesId, &str> = Store::new();
    let a = store.insert("a");
    let b = store.insert("b");
    assert_eq!(a, SeriesId(0));
    assert_eq!(b, SeriesId(1));
    assert_eq!(*store.get(b), "b");
    assert!(store.contains(a));
    store.remove(a);
    assert!(!store.contains(a));
    assert_eq!(store.take(b), Some("b"));
    assert_eq!(store.take(b), None);
    assert_eq!(store.next_index(), 2);
}

#[test]
fn store_reserve_then_set() {
    let mut store: Store<SeriesId, u32> = Store::new();
    let key = store.reserve();
    assert!(!store.contains(key));
    store.set(key, 7);
    assert_eq!(*store.get(key), 7);
    store.set(SeriesId(4), 9);
    assert_eq!(store.next_index(), 5);
    assert_eq!(store.keys(), vec![SeriesId(0), SeriesId(4)]);
}

#[test]
fn ordered_set_ignores_repeats_and_pops_last() {
    let mut set: OrderedSet<SeriesId> = OrderedSet::new();
    assert!(set.is_empty());
    set.push(SeriesId(3));
    set.push(SeriesId(1));
    set.push(SeriesId(3));
    assert_eq!(set.len(), 2);
    assert!(set.contains(SeriesId(1)));
    assert_eq!(set.pop(), Some(SeriesId(1)));
    set.extend(&vec![SeriesId(5), SeriesId(3), SeriesId(6)]);
    set.reverse();
    assert_eq!(set.pop(), Some(SeriesId(3)));
    assert_eq!(set.pop(), Some(SeriesId(5)));
    assert_eq!(set.pop(), Some(SeriesId(6)));
    assert_eq!(set.pop(), None);
}

#[test]
fn decimal_numerals() {
    assert_eq!(decimal_string(0), "0");
    assert_eq!(decimal_string(7), "7");
    assert_eq!(decimal_string(1204), "1204");
}

#[test]
fn class_insertion_merges_overlaps_only() {
    let mut c = Class::new(false);
    c.insert(1, 3);
    c.insert(2, 5);
    assert_eq!(c.ranges(), &vec![(1, 5)]);
    c.insert(7, 8);
    assert_eq!(c.ranges(), &vec![(1, 5), (7, 8)]);
    c.insert(6, 6);
    assert_eq!(c.ranges(), &vec![(1, 5), (6, 6), (7, 8)]);
}

#[test]
fn class_removal_splits_ranges() {
    let mut c = Class::new(false);
    c.insert(1, 5);
    c.remove(2, 3);
    assert_eq!(c.ranges(), &vec![(1, 1), (4, 5)]);
    c.remove(0, 255);
    assert!(c.is_never());
}

#[test]
fn class_union_and_containment() {
    let mut a = Class::new(false);
    a.insert(b'a', b'z');
    let mut b = Class::new(false);
    b.insert(b'c', b'd');
    assert!(a.contains(&b));
    assert!(!b.contains(&a));
    let mut not_b = Class::new(true);
    not_b.insert(b'c', b'd');
    let union = Class::union(&a, &not_b);
    assert!(union.negated());
    assert_eq!(union.ranges(), &vec![]);
    let mut everything = Class::new(true);
    everything.insert(0, 255);
    assert!(everything.is_never());
}

#[test]
fn series_with_a_never_class_never_matches() {
    let mut s = Series::empty();
    assert!(s.is_empty());
    let mut c = Class::new(false);
    c.insert(b'a', b'a');
    s.append(c);
    assert!(!s.is_never());
    s.append(Class::new(false));
    assert!(s.is_never());
    assert_eq!(s.classes().len(), 1);
}

#[test]
fn series_merge_and_concatenation() {
    let single = |lo: u8, hi: u8| {
        let mut c = Class::new(false);
        c.insert(lo, hi);
        let mut s = Series::empty();
        s.append(c);
        s
    };
    let a = single(b'a', b'a');
    let b = single(b'b', b'b');
    let merged = Series::merge(&a, &b).unwrap();
    assert_eq!(merged.classes()[0].ranges(), &vec![(b'a', b'a'), (b'b', b'b')]);
    let ab = Series::concatenate(&a, &b);
    assert_eq!(ab.classes().len(), 2);
    assert!(Series::merge(&ab, &a).is_none());
    let never = Series::never();
    assert!(Series::merge(&never, &ab).unwrap().equals(&ab));
}

#[test]
fn sorted_set_keeps_one_of_each_in_order() {
    let mut set: SortedSet<String> = SortedSet::new();
    set.insert("b".to_string());
    set.insert("a".to_string());
    set.insert("b".to_string());
    assert_eq!(set.len(), 2);
    assert_eq!(set.items(), &vec!["a".to_string(), "b".to_string()]);
    let mut other: SortedSet<String> = SortedSet::new();
    other.insert("c".to_string());
    let union = SortedSet::union(&set, &other);
    assert_eq!(union.items().len(), 3);
    assert!(union.duplicate().equals(&union));
}

#[test]
fn debug_symbol_merges() {
    let a = DebugSymbol::named("a".to_string());
    let b = DebugSymbol::named("b".to_string());
    let none = DebugSymbol::anonymous();
    let ab = DebugSymbol::merge(&a, &b);
    assert_eq!(ab.names.items(), &vec!["a".to_string(), "b".to_string()]);
    assert_eq!(DebugSymbol::merge(&none, &a).names.items(), &vec!["a".to_string()]);
    let many = DebugSymbol::merge_many(&vec![&none, &b, &a]);
    assert_eq!(many.names.items(), &vec!["a".to_string(), "b".to_string()]);
    assert!(DebugSymbol::merge_many(&vec![]).names.is_empty());
}

#[test]
fn normal_settings_enable_everything() {
    let s = CompilerSettings::normal();
    assert!(s.merge_series && s.character_replacement && s.cache_insertion && s.redundant_junction_elimination);
}

#[test]
fn normalization_stages() {
    assert_eq!(stage(0), vec![Rewrite::ResolveDelegate, Rewrite::LowerToFirstChoice, Rewrite::LowerToFirstChoiceWithoutSeq]);
    assert_eq!(stage(1).len(), 7);
    assert_eq!(stage(2), vec![Rewrite::NormalizeSeqOrder, Rewrite::NormalizeChoiceOrder, Rewrite::NormalizeFirstChoiceOrder]);
    assert!(stage(3).is_empty());
}

#[test]
fn codegen_function() {
    let mut c = Codegen::new();
    let mut body = c.function("fn main()");
    body.line(&mut c, "let x = 1;");
    let mut cond = body.if_statement(&mut c, "x == 1");
    cond.line(&mut c, "run();");
    cond.finish(&mut c);
    let mut cases = body.match_statement(&mut c, "x");
    cases.case_line(&mut c, "1", "one()");
    cases.finish(&mut c);
    body.finish(&mut c);
    assert_eq!(
        c.finish(),
        "#[allow(unused)]\nfn main() {\n    let x = 1;\n    if x == 1 {\n        run();\n    }\n    match x {\n        1 => one(),\n    }\n}\n"
    );
}

#[test]
fn codegen_enum_and_trait() {
    let mut c = Codegen::new();
    let mut e = c.enumeration("Label", true);
    e.variant(&mut c, "A");
    e.variant(&mut c, "B");
    e.finish(&mut c);
    let mut t = c.trait_impl("Grammar", "Impl");
    let mut f = t.function(&mut c, "fn a()");
    f.line(&mut c, "x");
    f.finish(&mut c);
    let g = t.function(&mut c, "fn b()");
    g.finish(&mut c);
    t.finish(&mut c);
    assert_eq!(
        c.finish(),
        "pub enum Label {\n    A,\n    B,\n}\n\nimpl Grammar for Impl {\n    #[allow(unused)]\n    fn a() {\n        x\n    }\n    \n    #[allow(unused)]\n    fn b() {\n    }\n}\n"
    );
}

#[test]
fn codegen_trims_trailing_spaces_and_indents() {
    let mut c = Codegen::new();
    c.indent();
    c.line("a   ");
    assert_eq!(c.depth(), 1);
    c.dedent();
    c.write("b");
    c.newline();
    c.newline();
    assert_eq!(c.finish(), "    a\nb\n");
}

#[test]
fn names_of_states_and_labels() {
    assert_eq!(state_const_name(3, 1), "STATE_3_1");
    assert_eq!(state_function_name(12, 0), "state_12_0");
    assert_eq!(pascal_case("hello_world"), "HelloWorld");
    assert_eq!(pascal_case("__a_b"), "AB");
    assert_eq!(pascal_case("a1_b"), "A1B");
}

#[test]
fn load_rejects_other_versions() {
    let ir = Ir::Success { version: 1, start: 0, instructions: vec![literal("a", None)] };
    assert_eq!(load_message(&ir), "Malformed internal representation (invalid version)");
    let ir = Ir::Error { version: 2, message: "boom".to_string() };
    assert_eq!(load_message(&ir), "Malformed internal representation (invalid version)");
}

#[test]
fn load_reports_the_grammar_error() {
    let ir = Ir::Error { version: 0, message: "Undefined rule: x".to_string() };
    assert_eq!(load_message(&ir), "Undefined rule: x");
}

#[test]
fn load_rejects_illegal_ids() {
    let ir = success(5, vec![literal("a", None)]);
    assert_eq!(load_message(&ir), "Invalid IR: Illegal instruction ID: 5");
    let ir = success(0, vec![
        InstructionIr::Sequence { first: 1, second: 9, rule_name: None },
        literal("a", None),
    ]);
    assert_eq!(load_message(&ir), "Invalid IR: Illegal instruction ID: 9");
}

#[test]
fn load_reports_left_recursive_rules() {
    let ir = success(0, vec![
        InstructionIr::Choice { first: 1, second: 2, rule_name: Some("a".to_string()) },
        InstructionIr::Sequence { first: 0, second: 2, rule_name: Some("b".to_string()) },
        literal("", None),
    ]);
    match load(&ir) {
        Err(Error::LeftRecursive(names)) => {
            assert_eq!(names.items(), &vec!["a".to_string(), "b".to_string()]);
        }
        _ => panic!("left recursion not reported"),
    }
}

#[test]
fn visualize_single_series() {
    let ir = success(0, vec![literal("ab", Some("start"))]);
    let parser = load(&ir).ok().unwrap();
    assert_eq!(
        parser.visualize(),
        "digraph {\n    i0[shape=box, label=\"Series['a', 'b'] (AT) (F) #0\"];\n    i0[peripheries=2];\n    subgraph cluster_0 {\n        label=\"start\";\n        i0;\n    }\n}"
    );
}

#[test]
fn loaded_parser_is_numbered_from_its_start() {
    let ir = success(1, vec![
        literal("x", Some("x")),
        InstructionIr::Label { target: 0, label: "item".to_string(), rule_name: Some("item".to_string()) },
    ]);
    let parser = load(&ir).ok().unwrap();
    assert_eq!(parser.start(), InstructionId(0));
    assert_eq!(parser.instruction_count(), 2);
    assert!(matches!(parser.instruction_at(InstructionId(0)), Some(Instruction::Label(InstructionId(1), _))));
    assert!(matches!(parser.instruction_at(InstructionId(1)), Some(Instruction::Series(_))));
    assert_eq!(parser.instruction_at(InstructionId(2)), None);
}

#[test]
fn generated_code_declares_states() {
    let ir = success(0, vec![literal("ab", Some("start"))]);
    let code = load(&ir).ok().unwrap().generate();
    assert!(code.contains("const STATE_0_0: State = 1;"));
    assert!(code.contains("generate!(STATE_0_0, dispatch);"));
}

#[test]
fn generated_code_names_labels_in_pascal_case() {
    let ir = success(0, vec![
        InstructionIr::Label { target: 1, label: "key_value".to_string(), rule_name: None },
        literal("k", None),
    ]);
    let code = load(&ir).ok().unwrap().generate();
    assert!(code.contains("KeyValue"));
}

fn labelled_pair(first: (&str, &str), second: (&str, &str)) -> Ir {
    success(0, vec![
        InstructionIr::Sequence { first: 1, second: 2, rule_name: Some("pair".to_string()) },
        InstructionIr::Label { target: 3, label: first.0.to_string(), rule_name: None },
        InstructionIr::Label { target: 4, label: second.0.to_string(), rule_name: None },
        literal(first.1, None),
        literal(second.1, None),
    ])
}

#[test]
fn duplicate_branches_are_merged() {
    let same = load(&labelled_pair(("x", "a"), ("x", "a"))).ok().unwrap();
    let different = load(&labelled_pair(("x", "a"), ("y", "b"))).ok().unwrap();
    assert!(same.instruction_count() < different.instruction_count());
}

#[test]
fn version_reports_are_judged() {
    let node = ToolRequirement::node();
    assert_eq!(node.check(&b"v18.12.1\n".to_vec()), VersionStatus::Current);
    assert_eq!(node.check(&b"v14.0.0\n".to_vec()), VersionStatus::OutOfDate(14));
    assert_eq!(node.check(&b"node 18\n".to_vec()), VersionStatus::Unknown);
    let rust = ToolRequirement::rust();
    assert_eq!(rust.check(&b"rustc 1.70.0 (90c541806 2023-05-31)\n".to_vec()), VersionStatus::Current);
    assert_eq!(rust.check(&b"rustc 1.55.0 (c8dfcfe04 2021-09-06)\n".to_vec()), VersionStatus::OutOfDate(55));
    assert_eq!(check_version("(", &b"anything".to_vec(), 1), VersionStatus::Unknown);
    assert_eq!(check_version("^v(\\d+)\\.", &b"v99999999999.0".to_vec(), 1), VersionStatus::Unknown);
}

#[test]
fn integers_are_read_as_str_parse_does() {
    assert_eq!(parse_u32(&b"42".to_vec()), Some(42));
    assert_eq!(parse_u32(&b"+42".to_vec()), Some(42));
    assert_eq!(parse_u32(&b"4294967295".to_vec()), Some(u32::MAX));
    assert_eq!(parse_u32(&b"4294967296".to_vec()), None);
    assert_eq!(parse_u32(&b"".to_vec()), None);
    assert_eq!(parse_u32(&b"+".to_vec()), None);
    assert_eq!(parse_u32(&b"12a".to_vec()), None);
    assert_eq!(parse_u32(&b"-1".to_vec()), None);
}

#[test]
fn store_entries_in_key_order() {
    let mut store: Store<SeriesId, u8> = Store::new();
    store.insert(5);
    store.insert(6);
    store.insert(7);
    store.remove(SeriesId(1));
    assert_eq!(store.entries(), vec![(SeriesId(0), 5), (SeriesId(2), 7)]);
}

fn only_series(parser: &Parser) -> bool {
    parser.instruction_count() == 1 && matches!(parser.instruction_at(InstructionId(0)), Some(Instruction::Series(_)))
}

#[test]
fn delegates_are_resolved() {
    let ir = success(0, vec![InstructionIr::Delegate { target: 1, rule_name: Some("a".to_string()) }, literal("x", None)]);
    assert!(only_series(&load(&ir).ok().unwrap()));
}

#[test]
fn sequences_of_series_are_concatenated() {
    let ir = success(0, vec![
        InstructionIr::Sequence { first: 1, second: 2, rule_name: None },
        literal("a", None),
        literal("b", None),
    ]);
    let parser = load(&ir).ok().unwrap();
    assert!(only_series(&parser));
    assert!(parser.visualize().contains("Series['a', 'b']"));
}

#[test]
fn choices_of_series_are_merged() {
    let ir = success(0, vec![
        InstructionIr::Choice { first: 1, second: 2, rule_name: None },
        literal("a", None),
        literal("b", None),
    ]);
    assert!(only_series(&load(&ir).ok().unwrap()));
}

#[test]
fn unreachable_instructions_are_trimmed() {
    let ir = success(1, vec![literal("unused", None), literal("used", None)]);
    let parser = load(&ir).ok().unwrap();
    assert!(only_series(&parser));
    assert!(parser.visualize().contains("Series['u', 's', 'e', 'd']"));
}

#[test]
fn load_rejects_labels_without_a_letter() {
    let ir = success(0, vec![
        InstructionIr::Label { target: 1, label: "_1".to_string(), rule_name: None },
        literal("a", None),
    ]);
    assert_eq!(load_message(&ir), "Malformed internal representation (invalid label)");
    let ir = success(9, vec![
        InstructionIr::Label { target: 1, label: "".to_string(), rule_name: None },
        literal("a", None),
    ]);
    assert_eq!(load_message(&ir), "Malformed internal representation (invalid label)");
    let ir = success(0, vec![
        InstructionIr::Label { target: 1, label: "X_y".to_string(), rule_name: None },
        literal("a", None),
    ]);
    assert!(load(&ir).is_ok());
}

#[test]
fn load_keeps_the_parser_on_an_illegal_reference() {
    let ir = success(0, vec![InstructionIr::Sequence { first: 0, second: 2, rule_name: None }]);
    assert_eq!(load_message(&ir), "Invalid IR: Illegal instruction ID: 2");
}

#[test]
fn components_of_a_small_graph() {
    // 0 -> 1 -> 2 -> 1, 2 -> 3; node 4 is absent.
    let adj = vec![vec![1], vec![2], vec![1, 3], vec![], vec![]];
    let present = vec![true, true, true, true, false];
    let roots = component_roots(&adj, &present);
    assert_eq!(roots, vec![0, 1, 1, 3, 4]);
    let preds = predecessor_lists(&adj);
    assert_eq!(preds, vec![vec![], vec![0, 2], vec![1], vec![2], vec![]]);
    let members = component_members(&roots, &present);
    assert_eq!(members, vec![vec![0], vec![1, 2], vec![], vec![3], vec![]]);
    let outs = component_successors(&adj, &roots, &members);
    assert_eq!(outs, vec![vec![1], vec![3], vec![], vec![], vec![]]);
}

#[test]
fn ordered_set_extend_keeps_first_occurrences() {
    let mut set: OrderedSet<InstructionId> = OrderedSet::new();
    set.push(InstructionId(3));
    set.extend(&vec![InstructionId(1), InstructionId(3), InstructionId(2), InstructionId(1)]);
    assert_eq!(set.pop(), Some(InstructionId(2)));
    assert_eq!(set.pop(), Some(InstructionId(1)));
    assert_eq!(set.pop(), Some(InstructionId(3)));
    assert_eq!(set.pop(), None);
}
