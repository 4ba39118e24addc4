use dockerfile_parser::{
    clean_escaped_breaks, substitute, BreakableString, Dockerfile, Error, ImageRef, Instruction, Span,
    Splicer, StageParent, Stages,
};

fn hex64() -> String {
    "074d3636ebda6dd446d0d00304c4454f468237fdacf08fb0eeac90bdbfa1bac7".to_string()
}

#[test]
fn image_ref_round_trip() {
    let digest = format!("fake/image@sha256:{}", hex64());
    let cases = vec![
        "alpine:3.10",
        "quay.io/prometheus/node-exporter:v0.18.1",
        "localhost/foo/bar:baz",
        "example.com:1234/foo/bar/baz:qux",
        digest.as_str(),
    ];
    for case in cases {
        let parsed = ImageRef::parse(case);
        assert_eq!(ImageRef::parse(&parsed.to_string()), parsed, "{}", case);
        assert_eq!(parsed.to_string(), case);
    }
}

#[test]
fn image_ref_text() {
    assert_eq!(ImageRef::parse("alpine:3.10").to_string(), "alpine:3.10");
    assert_eq!(ImageRef::parse("localhost/foo").to_string(), "localhost/foo");
    assert_eq!(ImageRef::parse("gcr.io/a/b@sha256:x").to_string(), "gcr.io/a/b@sha256:x");
    assert_eq!(ImageRef::parse("").image, "");
}

#[test]
fn splices_in_either_order() {
    let text = "FROM alpine:3.10\nRUN echo hello\n";
    let a = Span::new(5, 16);
    let b = Span::new(26, 31);
    let mut first = Splicer::from_str(text);
    first.splice(&a, "debian:bullseye-slim");
    first.splice(&b, "hi");
    let mut second = Splicer::from_str(text);
    second.splice(&b, "hi");
    second.splice(&a, "debian:bullseye-slim");
    assert_eq!(first.content, "FROM debian:bullseye-slim\nRUN echo hi\n");
    assert_eq!(first.content, second.content);
}

#[test]
fn splice_deletes_and_follows_earlier_edits() {
    let mut s = Splicer::from_str("abcdefgh");
    s.splice(&Span::new(1, 3), "");
    assert_eq!(s.content, "adefgh");
    s.splice(&Span::new(4, 6), "XY");
    assert_eq!(s.content, "adXYgh");
    s.splice(&Span::new(0, 1), "123");
    assert_eq!(s.content, "123dXYgh");
}

#[test]
fn splice_out_of_bounds_changes_nothing() {
    let mut s = Splicer::from_str("short");
    s.splice(&Span::new(3, 40), "x");
    assert_eq!(s.content, "short");
    s.splice(&Span::new(1, 2), "é");
    s.splice(&Span::new(2, 3), "z");
    assert_eq!(s.content, "séz".to_string() + "rt");
}

#[test]
fn splicer_from_dockerfile() {
    let d = Dockerfile::parse("FROM alpine:3.10\n").unwrap();
    let from = d.instructions[0].as_from().unwrap();
    let mut s = d.splicer();
    s.splice(&from.image.span, "alpine:3.11");
    assert_eq!(s.content, "FROM alpine:3.11\n");
    assert_eq!(d.content, "FROM alpine:3.10\n");
}

#[test]
fn stage_parents_and_roots() {
    let d = Dockerfile::parse("FROM a\nFROM b AS x\nFROM x AS y\n").unwrap();
    let stages = Stages::new(&d);
    assert_eq!(stages.stages.len(), 3);
    let b = ImageRef::parse("b");
    assert_eq!(stages.stages[1].parent, StageParent::Image(&b));
    assert_eq!(stages.stages[1].root, StageParent::Image(&b));
    assert_eq!(stages.stages[2].parent, StageParent::Stage(1));
    assert_eq!(stages.stages[2].root, StageParent::Image(&b));
}

#[test]
fn stage_names_ignore_case() {
    let d = Dockerfile::parse("ARG v=1\nFROM scratch AS Build\nRUN x\nFROM BUILD\n").unwrap();
    let stages = d.stages();
    assert_eq!(stages.stages.len(), 2);
    assert_eq!(stages.stages[0].name, Some("build".to_string()));
    assert_eq!(stages.stages[0].parent, StageParent::Scratch);
    assert_eq!(stages.stages[0].root, StageParent::Scratch);
    assert_eq!(stages.stages[0].instructions.len(), 2);
    assert_eq!(stages.stages[1].parent, StageParent::Stage(0));
    assert_eq!(stages.stages[1].root, StageParent::Scratch);
    assert_eq!(stages.get_by_name("BUILD").unwrap().index, 0);
    assert_eq!(stages.get("+1").unwrap().index, 1);
    assert!(stages.get("2").is_none());
    assert!(stages.get("99999999999999999999999").is_none());
    assert!(stages.get("nope").is_none());
    assert_eq!(d.iter_stages().len(), 2);
}

#[test]
fn stage_arg_index() {
    let d = Dockerfile::parse("FROM a\nRUN x\nARG v\nARG v\n").unwrap();
    let stages = d.stages();
    assert_eq!(stages.stages[0].arg_index("v"), Some(2));
    assert_eq!(stages.stages[0].arg_index("w"), None);
}

#[test]
fn copy_needs_two_paths() {
    assert!(matches!(Dockerfile::parse("COPY foo"), Err(Error::GenericParseError { .. })));
    let d = Dockerfile::parse("COPY foo bar baz").unwrap();
    let copy = d.instructions[0].as_copy().unwrap();
    let sources: Vec<&str> = copy.sources.iter().map(|s| s.content.as_str()).collect();
    assert_eq!(sources, vec!["foo", "bar"]);
    assert_eq!(copy.destination.content, "baz");
}

#[test]
fn from_digests() {
    let bad_scheme = format!("FROM alpine@sha257:{}", hex64());
    let no_scheme = format!("FROM alpine@{}", hex64());
    let short = "FROM alpine@sha256:abc".to_string();
    let not_hex = format!("FROM alpine@sha256:{}", "g".repeat(64));
    for case in [bad_scheme, no_scheme, short, not_hex] {
        assert!(matches!(Dockerfile::parse(&case), Err(Error::GenericParseError { .. })), "{}", case);
    }
    let upper = format!("FROM alpine@sha256:{}", hex64().to_uppercase());
    assert!(Dockerfile::parse(&upper).is_ok());
}

#[test]
fn from_indices_and_global_args() {
    let d = Dockerfile::parse("ARG a=1\nARG b\nFROM x\nARG c\nRUN y\nFROM z\nFROM w\n").unwrap();
    let indices: Vec<usize> = d.instructions.iter().filter_map(|i| i.as_from()).map(|f| f.index).collect();
    assert_eq!(indices, vec![0, 1, 2]);
    let names: Vec<&str> = d.global_args.iter().map(|a| a.name.content.as_str()).collect();
    assert_eq!(names, vec!["a", "b"]);
    assert_eq!(d.get_global_arg("b").unwrap().value, None);
    assert!(d.get_global_arg("c").is_none());
}

#[test]
fn field_spans_slice_the_text() {
    let text = "FROM --platform=linux/amd64 alpine:3.10 AS base\nCOPY a b\nLABEL k=v\nENV x=y\nARG n=m\n";
    let d = Dockerfile::parse(text).unwrap();
    let slice = |s: &Span| &text[s.start..s.end];
    let from = d.instructions[0].as_from().unwrap();
    assert_eq!(slice(&from.image.span), from.image.content);
    assert_eq!(slice(&from.alias.as_ref().unwrap().span), "base");
    assert_eq!(slice(&from.flags[0].value.span), "linux/amd64");
    let copy = d.instructions[1].as_copy().unwrap();
    assert_eq!(slice(&copy.destination.span), "b");
    let label = d.instructions[2].as_label().unwrap();
    assert_eq!(slice(&label.labels[0].value.span), "v");
    let env = d.instructions[3].as_env().unwrap();
    assert_eq!(slice(&env.vars[0].key.span), "x");
    let arg = d.instructions[4].as_arg().unwrap();
    assert_eq!(slice(&arg.value.as_ref().unwrap().span), "m");
    for (i, ins) in d.instructions.iter().enumerate() {
        let span = ins.span();
        assert!(span.start <= span.end && span.end <= text.len());
        if i > 0 {
            assert!(d.instructions[i - 1].span().end <= span.start);
        }
    }
}

#[test]
fn error_kinds() {
    assert!(matches!(Dockerfile::parse("123 foo"), Err(Error::ParseError { position: 0, .. })));
    assert!(matches!(Dockerfile::parse("arg foo=\"bar"), Err(Error::UnescapeError { .. })));
    assert!(matches!(Dockerfile::parse("FROM"), Err(Error::GenericParseError { .. })));
    assert!(matches!(Dockerfile::parse("EXPOSE"), Err(Error::GenericParseError { .. })));
}

#[test]
fn empty_and_comment_only_files() {
    assert_eq!(Dockerfile::parse("").unwrap().instructions.len(), 0);
    let d = Dockerfile::parse("# just a comment\n\n   \n").unwrap();
    assert_eq!(d.instructions.len(), 0);
    assert!(d.global_args.is_empty());
}

#[test]
fn misc_and_exec_forms() {
    let d = Dockerfile::parse("EXPOSE 80 443\nCMD [\"a\", \"b c\"]\nRUN [ -f x ] && y\n").unwrap();
    let misc = d.instructions[0].as_misc().unwrap();
    assert_eq!(misc.instruction.content, "EXPOSE");
    assert_eq!(misc.arguments.to_string(), "80 443");
    let cmd = d.instructions[1].as_cmd().unwrap();
    assert_eq!(cmd.as_exec().unwrap().as_str_vec(), vec!["a", "b c"]);
    let run = d.instructions[2].as_run().unwrap();
    assert_eq!(run.as_shell().unwrap().to_string(), "[ -f x ] && y");
    assert!(d.instructions[2].clone().into_cmd().is_none());
    assert!(matches!(Instruction::from(run.clone()), Instruction::Run(_)));
}

#[test]
fn substitute_keeps_used_names_on_failure() {
    let vars = vec![("a".to_string(), "1".to_string()), ("a".to_string(), "2".to_string())];
    let mut used = vec!["z".to_string()];
    assert_eq!(substitute("$a-${a}$", &vars, &mut used, 4).as_deref(), Some("2-2$"));
    assert!(used.contains(&"a".to_string()) && used.contains(&"z".to_string()));
    let mut used = vec!["z".to_string()];
    assert_eq!(substitute("$a $missing", &vars, &mut used, 4), None);
    assert_eq!(used, vec!["z".to_string()]);
    let mut used = Vec::new();
    assert_eq!(substitute("${a", &vars, &mut used, 4).as_deref(), Some("${a"));
}

#[test]
fn escaped_breaks_are_removed() {
    assert_eq!(clean_escaped_breaks("a\\\nb\\\n\\c"), "ab\\c");
    assert_eq!(clean_escaped_breaks(""), "");
}

#[test]
fn breakable_string_text() {
    let b = BreakableString::new(Span::new(0, 20))
        .add_string(Span::new(0, 4), "foo ")
        .add_comment(Span::new(6, 11), "# bar")
        .add_string(Span::new(12, 15), "baz");
    assert_eq!(b.to_string(), "foo baz");
    assert_eq!(b.iter_components().len(), 3);
}

#[test]
fn relative_span_on_later_line() {
    let d = Dockerfile::parse("FROM a\n  RUN b\n").unwrap();
    let run = d.instructions[1].span();
    assert_eq!(run.relative_span(&d), (1, Span::new(2, 7)));
}

#[test]
fn global_arg_after_label() {
    let d = Dockerfile::parse("LABEL a=b\nARG x=1\nFROM alpine\nARG y\n").unwrap();
    assert_eq!(d.get_global_arg("x").unwrap().value.as_ref().unwrap().content, "1");
    assert!(d.get_global_arg("y").is_none());
}

#[test]
fn comment_lines_give_no_instruction() {
    let d = Dockerfile::parse("# a\nRUN x \\\n  # inner\n  y\n# b\n").unwrap();
    assert_eq!(d.instructions.len(), 1);
    assert_eq!(d.instructions[0].as_run().unwrap().as_shell().unwrap().to_string(), "x   y");
}
