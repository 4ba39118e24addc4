use dockerfile_parser::{
    ArgInstruction, BreakableString, CmdInstruction, CopyFlag, CopyInstruction, Dockerfile,
    EntrypointInstruction, EnvInstruction, EnvVar, Error, FromFlag, FromInstruction, ImageRef,
    Instruction, Label, LabelInstruction, MiscInstruction, RunInstruction, ShellOrExecExpr, Span,
    SpannedString, Stage, StageParent, Stages, StringArray,
};

/// Strips the first newline and the indentation that all lines share.
fn indoc(s: &str) -> &'static str {
    let s = s.strip_prefix('\n').unwrap_or(s);
    let indent = s
        .lines()
        .filter(|l| !l.trim().is_empty())
        .map(|l| l.len() - l.trim_start().len())
        .min()
        .unwrap_or(0);
    let mut out = String::new();
    for line in s.split_inclusive('\n') {
        if line.trim().is_empty() {
            out.push_str(if line.ends_with('\n') { "\n" } else { "" });
        } else {
            out.push_str(&line[indent..]);
        }
    }
    Box::leak(out.into_boxed_str())
}

fn parse_single(s: &str) -> Result<Instruction, Error> {
    Dockerfile::parse(s)?.instructions.into_iter().next().ok_or(Error::UnknownParseError)
}

fn parse_from(s: &str) -> Result<FromInstruction, Error> {
    match parse_single(s)? {
        Instruction::From(f) => Ok(f),
        _ => Err(Error::UnknownParseError),
    }
}

fn bs(span: (usize, usize), s: &str) -> BreakableString {
    BreakableString::new(Span::new(span.0, span.1)).add_string(Span::new(span.0, span.1), s)
}

fn strings(strs: &[&str]) -> Vec<String> {
    strs.iter().map(|s| String::from(*s)).collect()
}

#[test]
  fn arg_strings() -> Result<(), Error> {
    assert_eq!(
      parse_single(r#"arg foo=bar"#)?,
      ArgInstruction {
        span: Span::new(0, 11),
        name: SpannedString {
          span: Span::new(4, 7),
          content: "foo".into(),
        },
        value: Some(SpannedString {
          span: Span::new(8, 11),
          content: "bar".into(),
        }),
      }.into()
    );

    assert_eq!(
      parse_single(r#"arg foo="bar""#)?,
      ArgInstruction {
        span: Span::new(0, 13),
        name: SpannedString {
          span: Span::new(4, 7),
          content: "foo".into(),
        },
        value: Some(SpannedString {
          span: Span::new(8, 13),
          content: "bar".into(),
        }),
      }.into()
    );

    assert_eq!(
      parse_single(r#"arg foo='bar'"#)?,
      ArgInstruction {
        span: Span::new(0, 13),
        name: SpannedString {
          span: Span::new(4, 7),
          content: "foo".into(),
        },
        value: Some(SpannedString {
          span: Span::new(8, 13),
          content: "bar".into(),
        }),
      }.into()
    );

    assert!(Dockerfile::parse(r#"arg foo="bar"bar"#).is_err());
    assert!(Dockerfile::parse(r#"arg foo='bar'bar"#).is_err());

    Ok(())
  }

#[test]
  fn cmd_basic() -> Result<(), Error> {
    assert_eq!(
      parse_single(r#"CMD echo "hello world""#)?
        .as_cmd().unwrap()
        .as_shell().unwrap(),
      &BreakableString::new(Span::new(4, 22))
        .add_string(Span::new(4, 22), "echo \"hello world\"")
    );

    assert_eq!(
      parse_single(r#"CMD echo "hello world""#)?
        .as_cmd().unwrap()
        .as_shell().unwrap()
        .to_string(),
      "echo \"hello world\""
    );

    assert_eq!(
      parse_single(r#"cmd ["echo", "hello world"]"#)?,
      CmdInstruction {
        span: Span::new(0, 27),
        expr: ShellOrExecExpr::Exec(StringArray {
          span: Span::new(4, 27),
          elements: vec![SpannedString {
            span: Span::new(5, 11),
            content: "echo".to_string(),
          }, SpannedString {
            span: Span::new(13, 26),
            content: "hello world".to_string(),
          }]
        }),
      }.into()
    );

    Ok(())
  }

#[test]
  fn cmd_multiline_exec() -> Result<(), Error> {
    assert_eq!(
      parse_single(r#"cmd\
        [\
        "echo", \
        "hello world"\
        ]"#)?,
      CmdInstruction {
        span: Span::new(0, 66),
        expr: ShellOrExecExpr::Exec(StringArray {
          span: Span::new(13, 66),
          elements: vec![SpannedString {
            span: Span::new(24, 30),
            content: "echo".to_string(),
          }, SpannedString {
            span: Span::new(42, 55),
            content: "hello world".to_string(),
          }]
        }),
      }.into()
    );

    Ok(())
  }

#[test]
  fn cmd_multiline_shell() -> Result<(), Error> {
    assert_eq!(
      parse_single(indoc(r#"
        cmd echo \
          "hello world"
      "#))?
        .as_cmd().unwrap()
        .as_shell().unwrap(),
      &BreakableString::new(Span::new(4, 26))
        .add_string(Span::new(4, 9), "echo ")
        .add_string(Span::new(11, 26), "  \"hello world\"")
    );

    assert_eq!(
      parse_single(indoc(r#"
        cmd echo \
          "hello world"
      "#))?
        .as_cmd().unwrap()
        .as_shell().unwrap()
        .to_string(),
      "echo   \"hello world\""
    );

    Ok(())
  }

#[test]
  fn cmd_multiline_shell_large() -> Result<(), Error> {
    // note: the trailing `\` at the end is _almost_ nonsense and generates a
    // warning from docker
    let ins = parse_single(indoc(r#"
        cmd set -x && \
            # lorem ipsum
            echo "hello world" && \
            # dolor sit amet,
            # consectetur \
            # adipiscing elit, \
            # sed do eiusmod
            # tempor incididunt ut labore
            echo foo && \
            echo 'bar' \
            && echo baz \
            # et dolore magna aliqua."#))?.into_cmd().unwrap().into_shell().unwrap();

    assert_eq!(
      ins,
      BreakableString::new(Span::new(4, 266))
        .add_string(Span::new(4, 14), "set -x && ")
        .add_comment(Span::new(20, 33), "# lorem ipsum")
        .add_string(Span::new(34, 60), "    echo \"hello world\" && ")
        .add_comment(Span::new(66, 83), "# dolor sit amet,")
        .add_comment(Span::new(88, 103), "# consectetur \\")
        .add_comment(Span::new(108, 128), "# adipiscing elit, \\")
        .add_comment(Span::new(133, 149), "# sed do eiusmod")
        .add_comment(Span::new(154, 183), "# tempor incididunt ut labore")
        .add_string(Span::new(184, 200), "    echo foo && ")
        .add_string(Span::new(202, 217), "    echo 'bar' ")
        .add_string(Span::new(219, 235), "    && echo baz ")
        .add_comment(Span::new(241, 266), "# et dolore magna aliqua.")
    );

    assert_eq!(
      ins.to_string(),
      r#"set -x &&     echo "hello world" &&     echo foo &&     echo 'bar'     && echo baz "#
    );

    Ok(())
  }

#[test]
  fn copy_basic() -> Result<(), Error> {
    assert_eq!(
      parse_single("copy foo bar")?,
      CopyInstruction {
        span: Span { start: 0, end: 12 },
        flags: vec![],
        sources: vec![SpannedString {
          span: Span::new(5, 8),
          content: "foo".to_string()
        }],
        destination: SpannedString {
          span: Span::new(9, 12),
          content: "bar".to_string()
        },
      }.into()
    );

    Ok(())
  }

#[test]
  fn copy_multiple_sources() -> Result<(), Error> {
    assert_eq!(
      parse_single("copy foo bar baz qux")?,
      CopyInstruction {
        span: Span { start: 0, end: 20 },
        flags: vec![],
        sources: vec![SpannedString {
          span: Span::new(5, 8),
          content: "foo".to_string(),
        }, SpannedString {
          span: Span::new(9, 12),
          content: "bar".to_string()
        }, SpannedString {
          span: Span::new(13, 16),
          content: "baz".to_string()
        }],
        destination: SpannedString {
          span: Span::new(17, 20),
          content: "qux".to_string()
        },
      }.into()
    );

    Ok(())
  }

#[test]
  fn copy_multiline() -> Result<(), Error> {
    // multiline is okay; whitespace on the next line is optional
    assert_eq!(
      parse_single("copy foo \\\nbar")?,
      CopyInstruction {
        span: Span { start: 0, end: 14 },
        flags: vec![],
        sources: vec![SpannedString {
          span: Span::new(5, 8),
          content: "foo".to_string(),
        }],
        destination: SpannedString {
          span: Span::new(11, 14),
          content: "bar".to_string(),
        },
      }.into()
    );

    // newlines must be escaped
    assert_eq!(
      parse_single("copy foo\nbar").is_err(),
      true
    );

    Ok(())
  }

#[test]
  fn copy_flags() -> Result<(), Error> {
    assert_eq!(
      parse_single("copy --from=alpine:3.10 /usr/lib/libssl.so.1.1 /tmp/")?,
      CopyInstruction {
        span: Span { start: 0, end: 52 },
        flags: vec![
          CopyFlag {
            span: Span { start: 5, end: 23 },
            name: SpannedString {
              content: "from".into(),
              span: Span { start: 7, end: 11 },
            },
            value: SpannedString {
              content: "alpine:3.10".into(),
              span: Span { start: 12, end: 23 },
            }
          }
        ],
        sources: vec![SpannedString {
          span: Span::new(24, 46),
          content: "/usr/lib/libssl.so.1.1".to_string(),
        }],
        destination: SpannedString {
          span: Span::new(47, 52),
          content: "/tmp/".into(),
        }
      }.into()
    );

    Ok(())
  }

#[test]
  fn copy_comments() -> Result<(), Error> {
    assert_eq!(
      parse_single(indoc(r#"
          copy \
            --from=alpine:3.10 \

            # hello

            /usr/lib/libssl.so.1.1 \
            # world
            /tmp/
        "#))?.into_copy().unwrap(),
      CopyInstruction {
        span: Span { start: 0, end: 86 },
        flags: vec![
          CopyFlag {
            span: Span { start: 9, end: 27 },
            name: SpannedString {
              span: Span { start: 11, end: 15 },
              content: "from".into(),
            },
            value: SpannedString {
              span: Span { start: 16, end: 27 },
              content: "alpine:3.10".into(),
            },
          }
        ],
        sources: vec![SpannedString {
          span: Span::new(44, 66),
          content: "/usr/lib/libssl.so.1.1".to_string(),
        }],
        destination: SpannedString {
          span: Span::new(81, 86),
          content: "/tmp/".into(),
        },
      }.into()
    );

    Ok(())
  }

#[test]
  fn entrypoint_basic() -> Result<(), Error> {
    assert_eq!(
      parse_single(r#"entrypoint echo "hello world""#)?
        .as_entrypoint().unwrap()
        .as_shell().unwrap(),
      &BreakableString::new(Span::new(11, 29))
        .add_string(Span::new(11, 29), "echo \"hello world\"")
    );

    assert_eq!(
      parse_single(r#"entrypoint ["echo", "hello world"]"#)?,
      EntrypointInstruction {
        span: Span::new(0, 34),
        expr: ShellOrExecExpr::Exec(StringArray {
          span: Span::new(11, 34),
          elements: vec![SpannedString {
            span: Span::new(12, 18),
            content: "echo".to_string(),
          }, SpannedString {
            span: Span::new(20, 33),
            content: "hello world".to_string(),
          }]
        })
      }.into()
    );

    Ok(())
  }

#[test]
  fn entrypoint_multiline_exec() -> Result<(), Error> {
    assert_eq!(
      parse_single(r#"entrypoint\
        [\
        "echo", \
        "hello world"\
        ]"#)?,
      EntrypointInstruction {
        span: Span::new(0, 73),
        expr: ShellOrExecExpr::Exec(StringArray {
          span: Span::new(20, 73),
          elements: vec![SpannedString {
            span: Span::new(31, 37),
            content: "echo".to_string(),
          }, SpannedString {
            span: Span::new(49, 62),
            content: "hello world".to_string(),
          }]
        }),
      }.into()
    );

    Ok(())
  }

#[test]
  fn entrypoint_multiline_shell() -> Result<(), Error> {
    assert_eq!(
      parse_single(indoc(r#"
        entrypoint echo \
          "hello world"
      "#))?
        .as_entrypoint().unwrap()
        .as_shell().unwrap(),
      &BreakableString::new(Span::new(11, 33))
        .add_string(Span::new(11, 16), "echo ")
        .add_string(Span::new(18, 33), "  \"hello world\"")
    );

    Ok(())
  }

#[test]
  fn entrypoint_multiline_large() -> Result<(), Error> {
    // note: the trailing `\` at the end is _almost_ nonsense and generates a
    // warning from docker
    let ins = parse_single(indoc(r#"
        entrypoint set -x && \
            # lorem ipsum
            echo "hello world" && \
            # dolor sit amet,
            # consectetur \
            # adipiscing elit, \
            # sed do eiusmod
            # tempor incididunt ut labore
            echo foo && \
            echo 'bar' \
            && echo baz \
            # et dolore magna aliqua."#))?.into_entrypoint().unwrap().into_shell().unwrap();

    assert_eq!(
      ins,
      BreakableString::new(Span::new(11, 273))
        .add_string(Span::new(11, 21), "set -x && ")
        .add_comment(Span::new(27, 40), "# lorem ipsum")
        .add_string(Span::new(41, 67), "    echo \"hello world\" && ")
        .add_comment(Span::new(73, 90), "# dolor sit amet,")
        .add_comment(Span::new(95, 110), "# consectetur \\")
        .add_comment(Span::new(115, 135), "# adipiscing elit, \\")
        .add_comment(Span::new(140, 156), "# sed do eiusmod")
        .add_comment(Span::new(161, 190), "# tempor incididunt ut labore")
        .add_string(Span::new(191, 207), "    echo foo && ")
        .add_string(Span::new(209, 224), "    echo 'bar' ")
        .add_string(Span::new(226, 242), "    && echo baz ")
        .add_comment(Span::new(248, 273), "# et dolore magna aliqua.")
    );

    assert_eq!(
      ins.to_string(),
      r#"set -x &&     echo "hello world" &&     echo foo &&     echo 'bar'     && echo baz "#
    );

    Ok(())
  }

#[test]
  fn env() -> Result<(), Error> {
    assert_eq!(
      parse_single(r#"env foo=bar"#)?.into_env().unwrap(),
      EnvInstruction {
        span: Span::new(0, 11),
        vars: vec![EnvVar::new(
          Span::new(4, 11),
          SpannedString {
            span: Span::new(4, 7),
            content: "foo".to_string(),
          },
          bs((8, 11), "bar"),
        )],
      }
    );

    assert_eq!(
      parse_single(r#"env FOO_BAR="baz""#)?,
      EnvInstruction {
        span: Span::new(0, 17),
        vars: vec![EnvVar::new(
          Span::new(4, 17),
          SpannedString {
            span: Span::new(4, 11),
            content: "FOO_BAR".to_string(),
          },
          bs((12, 17), "baz"),
        )],
      }.into()
    );

    assert_eq!(
      parse_single(r#"env FOO_BAR "baz""#)?,
      EnvInstruction {
        span: Span::new(0, 17),
        vars: vec![EnvVar::new(
          Span::new(4, 17),
          SpannedString {
            span: Span::new(4, 11),
            content: "FOO_BAR".to_string(),
          },
          bs((12, 17), "baz")),
        ],
      }.into()
    );

    assert_eq!(
      parse_single(r#"env foo="bar\"baz""#)?,
      EnvInstruction {
        span: Span::new(0, 18),
        vars: vec![EnvVar::new(
          Span::new(4, 18),
          SpannedString {
            span: Span::new(4, 7),
            content: "foo".to_string(),
          },
          bs((8, 18), "bar\"baz"),
        )],
      }.into()
    );

    assert_eq!(
      parse_single(r#"env foo='bar'"#)?,
      EnvInstruction {
        span: Span::new(0, 13),
        vars: vec![EnvVar::new(
          Span::new(4, 13),
          SpannedString {
            span: Span::new(4, 7),
            content: "foo".to_string(),
          },
          bs((8, 13), "bar"),
        )],
      }.into()
    );

    assert_eq!(
      parse_single(r#"env foo='bar\'baz'"#)?,
      EnvInstruction {
        span: Span::new(0, 18),
        vars: vec![EnvVar::new(
          Span::new(4, 18),
          SpannedString {
            span: Span::new(4, 7),
            content: "foo".to_string(),
          },
          bs((8, 18), "bar'baz"),
        )],
      }.into()
    );

    assert_eq!(
      parse_single(r#"env foo="123" bar='456' baz=789"#)?,
      EnvInstruction {
        span: Span::new(0, 31),
        vars: vec![
          EnvVar::new(
            Span::new(4, 13),
            SpannedString {
              span: Span::new(4, 7),
              content: "foo".to_string(),
            },
            bs((8, 13), "123")
          ),
          EnvVar::new(
            Span::new(14, 23),
            SpannedString {
              span: Span::new(14, 17),
              content: "bar".to_string(),
            },
            bs((18, 23), "456")
          ),
          EnvVar::new(
            Span::new(24, 31),
            SpannedString {
              span: Span::new(24, 27),
              content: "baz".to_string(),
            },
            bs((28, 31), "789")
          ),
        ],
      }.into()
    );

    assert!(Dockerfile::parse(r#"env foo="bar"bar"#).is_err());
    assert!(Dockerfile::parse(r#"env foo='bar'bar"#).is_err());

    Ok(())
  }

#[test]
  fn test_multiline_pairs() -> Result<(), Error> {
    // note: docker allows empty line continuations (but may print a warning)
    assert_eq!(
      parse_single(indoc(r#"
          env foo=a \
            bar=b \
            baz=c \

        "#))?.into_env().unwrap().vars,
      vec![
        EnvVar::new(
          Span::new(4, 9),
          SpannedString {
            span: Span::new(4, 7),
            content: "foo".to_string(),
          },
          bs((8, 9), "a")
        ),
        EnvVar::new(
          Span::new(14, 19),
          SpannedString {
            span: Span::new(14, 17),
            content: "bar".to_string(),
          },
          bs((18, 19), "b")
        ),
        EnvVar::new(
          Span::new(24, 29),
          SpannedString {
            span: Span::new(24, 27),
            content: "baz".to_string(),
          },
          bs((28, 29), "c")
        )
      ]
    );

    Ok(())
  }

#[test]
  fn test_multiline_single_env() -> Result<(), Error> {
    assert_eq!(
      parse_single(indoc(r#"
          env foo Lorem ipsum dolor sit amet, \
            consectetur adipiscing elit, \
            sed do eiusmod tempor incididunt ut \
            labore et dolore magna aliqua.
        "#))?.into_env().unwrap().vars,
      vec![
        EnvVar::new(
          Span::new(4, 143),
          SpannedString {
            span: Span::new(4, 7),
            content: "foo".to_string(),
          },
          BreakableString::new(Span::new(8, 143))
            .add_string(Span::new(8, 36), "Lorem ipsum dolor sit amet, ")
            .add_string(Span::new(38, 69), "  consectetur adipiscing elit, ")
            .add_string(Span::new(71, 109), "  sed do eiusmod tempor incididunt ut ")
            .add_string(Span::new(111, 143), "  labore et dolore magna aliqua.")
        )
      ]
    );

    // note: maybe a small bug here, leading whitespace on the first value line
    // is eaten (this will hopefully never matter...)
    assert_eq!(
      parse_single(indoc(r#"
          env \
            foo \
            Lorem ipsum dolor sit amet, \
            consectetur adipiscing elit
        "#))?.into_env().unwrap().vars,
      vec![
        EnvVar::new(
          Span::new(8, 75),
          SpannedString {
            span: Span::new(8, 11),
            content: "foo".to_string(),
          },
          BreakableString::new(Span::new(16, 75))
            .add_string(Span::new(16, 44), "Lorem ipsum dolor sit amet, ")
            .add_string(Span::new(46, 75), "  consectetur adipiscing elit")
        )
      ]
    );

    assert_eq!(
      parse_single(indoc(r#"
          env \
            foo \
            # bar
            Lorem ipsum dolor sit amet, \
            # baz
            consectetur adipiscing elit
        "#))?.into_env().unwrap().vars,
      vec![
        EnvVar::new(
          Span::new(8, 91),
          SpannedString {
            span: Span::new(8, 11),
            content: "foo".to_string(),
          },
          BreakableString::new(Span::new(24, 91))
            .add_string(Span::new(24, 52), "Lorem ipsum dolor sit amet, ")
            .add_comment(Span::new(56, 61), "# baz")
            .add_string(Span::new(62, 91), "  consectetur adipiscing elit")
        )
      ]
    );

    Ok(())
  }

#[test]
  fn from_bad_digest() {
    let cases = vec![
      "from alpine@sha256:ca5a2eb9b7917e542663152b04c0",
      "from alpine@sha257:ca5a2eb9b7917e542663152b04c0ad0572e0522fcf80ff080156377fc08ea8f8",
      "from alpine@ca5a2eb9b7917e542663152b04c0ad0572e0522fcf80ff080156377fc08ea8f8",
    ];

    for case in cases {
      let result = parse_from(case);

      match result {
        Ok(_) => panic!("Expected parse error."),
        Err(Error::GenericParseError { message: _}) => {},
        Err(_) => panic!("Expected GenericParseError"),
      };
    }
  }

#[test]
  fn from_no_alias() -> Result<(), Error> {
    // pulling the FromInstruction out of the enum is messy, so just parse
    // directly
    let from = parse_from("from alpine:3.10")?;

    assert_eq!(from, FromInstruction {
      span: Span { start: 0, end: 16 },
      index: 0,
      image: SpannedString {
        span: Span { start: 5, end: 16 },
        content: "alpine:3.10".into(),
      },
      image_parsed: ImageRef {
        registry: None,
        image: "alpine".into(),
        tag: Some("3.10".into()),
        hash: None
      },
      alias: None,
      flags: vec![],
    });

    Ok(())
  }

#[test]
  fn from_no_newline() -> Result<(), Error> {
    // unfortunately we can't use a single rule to test these as individual
    // rules have no ~ EOI requirement to ensure we parse the whole string
    assert!(Dockerfile::parse("from alpine:3.10 from example").is_err());

    Ok(())
  }

#[test]
  fn from_missing_alias() -> Result<(), Error> {
    assert!(Dockerfile::parse("from alpine:3.10 as").is_err());

    Ok(())
  }

#[test]
  fn from_flags() -> Result<(), Error> {
    assert_eq!(
      parse_single("FROM --platform=linux/amd64 alpine:3.10")?,
      FromInstruction {
        index: 0,
        span: Span { start: 0, end: 39 },
        flags: vec![
          FromFlag {
            span: Span { start: 5, end: 27 },
            name: SpannedString {
              content: "platform".into(),
              span: Span { start: 7, end: 15 },
            },
            value: SpannedString {
              content: "linux/amd64".into(),
              span: Span { start: 16, end: 27 },
            }
          }
        ],
        image: SpannedString {
          span: Span { start: 28, end: 39 },
          content: "alpine:3.10".into(),
        },
        image_parsed: ImageRef {
          registry: None,
          image: "alpine".into(),
          tag: Some("3.10".into()),
          hash: None
        },
        alias: None,
      }.into()
    );

    Ok(())
  }

#[test]
  fn from_multiline() -> Result<(), Error> {
    let from = parse_from(indoc(r#"
        from \
          # foo
          alpine:3.10 \

          # test
          # comment

          as \

          test
      "#))?;

    assert_eq!(from, FromInstruction {
      span: Span { start: 0, end: 68 },
      index: 0,
      image: SpannedString {
        span: Span { start: 17, end: 28 },
        content: "alpine:3.10".into(),
      },
      image_parsed: ImageRef {
        registry: None,
        image: "alpine".into(),
        tag: Some("3.10".into()),
        hash: None
      },
      alias: Some(SpannedString {
        span: Span::new(64, 68),
        content: "test".into(),
      }),
      flags: vec![],
    });

    Ok(())
  }

#[test]
  fn label_basic() -> Result<(), Error> {
    assert_eq!(
      parse_single("label foo=bar")?,
      LabelInstruction {
        span: Span::new(0, 13),
        labels: vec![
          Label::new(
            Span::new(6, 13),
            SpannedString {
              span: Span::new(6, 9),
              content: "foo".to_string(),
            }, SpannedString {
              span: Span::new(10, 13),
              content: "bar".to_string()
            },
          )
        ]
      }.into()
    );

    assert_eq!(
      parse_single("label foo.bar=baz")?,
      LabelInstruction {
        span: Span::new(0, 17),
        labels: vec![
          Label::new(
            Span::new(6, 17),
            SpannedString {
              span: Span::new(6, 13),
              content: "foo.bar".to_string(),
            },
            SpannedString {
              span: Span::new(14, 17),
              content: "baz".to_string()
            }
          )
        ]
      }.into()
    );

    assert_eq!(
      parse_single(r#"label "foo.bar"="baz qux""#)?,
      LabelInstruction {
        span: Span::new(0, 25),
        labels: vec![
          Label::new(
            Span::new(6, 25),
            SpannedString {
              span: Span::new(6, 15),
              content: "foo.bar".to_string(),
            }, SpannedString {
              span: Span::new(16, 25),
              content: "baz qux".to_string(),
            },
          )
        ]
      }.into()
    );

    // this is undocumented but supported :(
    assert_eq!(
      parse_single(r#"label foo.bar baz"#)?,
      LabelInstruction {
        span: Span::new(0, 17),
        labels: vec![
          Label::new(
            Span::new(5, 17),
            SpannedString {
              span: Span::new(6, 13),
              content: "foo.bar".to_string(),
            },
            SpannedString {
              span: Span::new(14, 17),
              content: "baz".to_string(),
            }
          )
        ]
      }.into()
    );
    assert_eq!(
      parse_single(r#"label "foo.bar" "baz qux""#)?,
      LabelInstruction {
        span: Span::new(0, 25),
        labels: vec![
          Label::new(
            Span::new(5, 25),
            SpannedString {
              span: Span::new(6, 15),
              content: "foo.bar".to_string(),
            },
            SpannedString {
              span: Span::new(16, 25),
              content: "baz qux".to_string(),
            },
          )
        ]
      }.into()
    );

    Ok(())
  }

#[test]
  fn label_multi() -> Result<(), Error> {
    assert_eq!(
      parse_single(r#"label foo=bar baz="qux" "quux quuz"="corge grault""#)?,
      LabelInstruction {
        span: Span::new(0, 50),
        labels: vec![
          Label::new(
            Span::new(6, 13),
            SpannedString {
              span: Span::new(6, 9),
              content: "foo".to_string(),
            },
            SpannedString {
              span: Span::new(10, 13),
              content: "bar".to_string(),
            },
          ),
          Label::new(
            Span::new(14, 23),
            SpannedString {
              span: Span::new(14, 17),
              content: "baz".to_string(),
            },
            SpannedString {
              span: Span::new(18, 23),
              content: "qux".to_string(),
            },
          ),
          Label::new(
            Span::new(24, 50),
            SpannedString {
              span: Span::new(24, 35),
              content: "quux quuz".to_string(),
            },
            SpannedString {
              span: Span::new(36, 50),
              content: "corge grault".to_string(),
            },
          )
        ]
      }.into()
    );

    assert_eq!(
      parse_single(r#"label foo=bar \
          baz="qux" \
          "quux quuz"="corge grault""#)?,
      LabelInstruction {
        span: Span::new(0, 74),
        labels: vec![
          Label::new(
            Span::new(6, 13),
            SpannedString {
              span: Span::new(6, 9),
              content: "foo".to_string(),
            },
            SpannedString {
              span: Span::new(10, 13),
              content: "bar".to_string(),
            },
          ),
          Label::new(
            Span::new(26, 35),
            SpannedString {
              span: Span::new(26, 29),
              content: "baz".to_string(),
            },
            SpannedString {
              span: Span::new(30, 35),
              content: "qux".to_string(),
            },
          ),
          Label::new(
            Span::new(48, 74),
            SpannedString {
              span: Span::new(48, 59),
              content: "quux quuz".to_string(),
            },
            SpannedString {
              span: Span::new(60, 74),
              content: "corge grault".to_string(),
            },
          )
        ]
      }.into()
    );

    Ok(())
  }

#[test]
  fn label_multiline() -> Result<(), Error> {
    assert_eq!(
      parse_single(r#"label "foo.bar"="baz\n qux""#)?,
      LabelInstruction {
        span: Span::new(0, 27),
        labels: vec![
          Label::new(
            Span::new(6, 27),
            SpannedString {
              span: Span::new(6, 15),
              content: "foo.bar".to_string(),
            },
            SpannedString {
              span: Span::new(16, 27),
              content: "baz\n qux".to_string(),
            },
          )
        ]
      }.into()
    );

    assert_eq!(
      parse_single(r#"label "foo\nbar"="baz\n qux""#)?,
      LabelInstruction {
        span: Span::new(0, 28),
        labels: vec![
          Label::new(
            Span::new(6, 28),
            SpannedString {
              span: Span::new(6, 16),
              content: "foo\nbar".to_string(),
            },
            SpannedString {
              span: Span::new(17, 28),
              content: "baz\n qux".to_string(),
            },
          )
        ]
      }.into()
    );

    Ok(())
  }

#[test]
  fn label_multi_multiline() -> Result<(), Error> {
    assert_eq!(
      parse_single(r#"label foo=bar \
          "lorem ipsum
          dolor
          "="sit
          amet" \
          baz=qux"#)?,
      LabelInstruction {
        span: Span::new(0, 107),
        labels: vec![
          Label::new(
            Span::new(6, 13),
            SpannedString {
              span: Span::new(6, 9),
              content: "foo".to_string(),
            },
            SpannedString {
              span: Span::new(10, 13),
              content: "bar".to_string(),
            },
          ),
          Label::new(
            Span::new(26, 87),
            SpannedString {
              span: Span::new(26, 66),
              content: "lorem ipsum\n          dolor\n          ".to_string(),
            },
            SpannedString {
              span: Span::new(67, 87),
              content: "sit\n          amet".to_string(),
            },
          ),
          Label::new(
            Span::new(100, 107),
            SpannedString {
              span: Span::new(100, 103),
              content: "baz".to_string(),
            },
            SpannedString {
              span: Span::new(104, 107),
              content: "qux".to_string(),
            },
          )
        ]
      }.into()
    );

    Ok(())
  }

#[test]
  fn label_multiline_improper_continuation() -> Result<(), Error> {
    // note: docker allows empty line continuations (but may print a warning)
    assert_eq!(
      parse_single(indoc(r#"
          label foo=a \
            bar=b \
            baz=c \

        "#))?.into_label().unwrap().labels,
      vec![
        Label::new(
          Span::new(6, 11),
          SpannedString {
          span: Span::new(6, 9),
            content: "foo".to_string(),
          },
          SpannedString {
            span: Span::new(10, 11),
            content: "a".to_string(),
          },
        ),
        Label::new(
          Span::new(16, 21),
          SpannedString {
            span: Span::new(16, 19),
            content: "bar".to_string(),
          },
          SpannedString {
            span: Span::new(20, 21),
            content: "b".to_string(),
          },
        ),
        Label::new(
          Span::new(26, 31),
          SpannedString {
            span: Span::new(26, 29),
            content: "baz".to_string(),
          },
          SpannedString {
            span: Span::new(30, 31),
            content: "c".to_string(),
          },
        ),
      ]
    );

    Ok(())
  }

#[test]
  fn run_basic() -> Result<(), Error> {
    assert_eq!(
      parse_single(r#"run echo "hello world""#)?
        .as_run().unwrap()
        .as_shell().unwrap(),
      &BreakableString::new(Span::new(4, 22))
        .add_string(Span::new(4, 22), "echo \"hello world\"")
    );

    assert_eq!(
      parse_single(r#"run ["echo", "hello world"]"#)?,
      RunInstruction {
        span: Span::new(0, 27),
        expr: ShellOrExecExpr::Exec(StringArray {
          span: Span::new(4, 27),
          elements: vec![SpannedString {
            span: Span::new(5, 11),
            content: "echo".to_string(),
          }, SpannedString {
            span: Span::new(13, 26),
            content: "hello world".to_string(),
          }]
        }),
      }.into()
    );

    Ok(())
  }

#[test]
  fn run_multiline_shell() -> Result<(), Error> {
    assert_eq!(
      parse_single(indoc(r#"
        run echo \
          "hello world"
      "#))?
        .as_run().unwrap()
        .as_shell().unwrap(),
      &BreakableString::new(Span::new(4, 26))
        .add_string(Span::new(4, 9), "echo ")
        .add_string(Span::new(11, 26), "  \"hello world\"")
    );

    assert_eq!(
      parse_single(indoc(r#"
        run echo \
          "hello world"
      "#))?
        .as_run().unwrap()
        .as_shell().unwrap()
        .to_string(),
      "echo   \"hello world\""
    );

    // whitespace should be allowed, but my editor removes trailing whitespace
    // :)
    assert_eq!(
      parse_single("run echo \\    \t  \t\t\n  \"hello world\"")?
        .as_run().unwrap()
        .as_shell().unwrap()
        .to_string(),
      "echo   \"hello world\""
    );

    Ok(())
  }

#[test]
  fn run_multiline_shell_comment() -> Result<(), Error> {
    assert_eq!(
      parse_single(indoc(r#"
          run foo && \
              # implicitly escaped
              bar && \
              # explicitly escaped \
              baz
        "#))?
        .into_run().unwrap()
        .into_shell().unwrap(),
      BreakableString::new(Span::new(4, 85))
        .add_string(Span::new(4, 11), "foo && ")
        .add_comment(Span::new(17, 37), "# implicitly escaped")
        .add_string(Span::new(38, 49), "    bar && ")
        .add_comment(Span::new(55, 77), "# explicitly escaped \\")
        .add_string(Span::new(78, 85), "    baz")
    );

    Ok(())
  }

#[test]
  fn run_multiline_shell_large() -> Result<(), Error> {
    // note: the trailing `\` at the end is _almost_ nonsense and generates a
    // warning from docker
    let ins = parse_single(indoc(r#"
        run set -x && \
            # lorem ipsum
            echo "hello world" && \
            # dolor sit amet,
            # consectetur \
            # adipiscing elit, \
            # sed do eiusmod
            # tempor incididunt ut labore
            echo foo && \
            echo 'bar' \
            && echo baz \
            # et dolore magna aliqua."#))?.into_run().unwrap().into_shell().unwrap();

    assert_eq!(
      ins,
      BreakableString::new(Span::new(4, 266))
        .add_string(Span::new(4, 14), "set -x && ")
        .add_comment(Span::new(20, 33), "# lorem ipsum")
        .add_string(Span::new(34, 60), "    echo \"hello world\" && ")
        .add_comment(Span::new(66, 83), "# dolor sit amet,")
        .add_comment(Span::new(88, 103), "# consectetur \\")
        .add_comment(Span::new(108, 128), "# adipiscing elit, \\")
        .add_comment(Span::new(133, 149), "# sed do eiusmod")
        .add_comment(Span::new(154, 183), "# tempor incididunt ut labore")
        .add_string(Span::new(184, 200), "    echo foo && ")
        .add_string(Span::new(202, 217), "    echo 'bar' ")
        .add_string(Span::new(219, 235), "    && echo baz ")
        .add_comment(Span::new(241, 266), "# et dolore magna aliqua.")
    );

    assert_eq!(
      ins.to_string(),
      r#"set -x &&     echo "hello world" &&     echo foo &&     echo 'bar'     && echo baz "#
    );

    Ok(())
  }

#[test]
  fn run_multline_exec() -> Result<(), Error> {
    assert_eq!(
      parse_single(r#"run\
        [\
        "echo", \
        "hello world"\
        ]"#)?,
      RunInstruction {
        span: Span::new(0, 66),
        expr: ShellOrExecExpr::Exec(StringArray {
          span: Span::new(13, 66),
          elements: vec![SpannedString {
            span: Span::new(24, 30),
            content: "echo".to_string(),
          }, SpannedString {
            span: Span::new(42, 55),
            content: "hello world".to_string(),
          }],
        }),
      }.into()
    );

    Ok(())
  }

#[test]
  fn run_multiline_exec_comment() -> Result<(), Error> {
    assert_eq!(
      parse_single(r#"run\
        [\
        "echo", \
        "hello world"\
        ]"#)?,
      RunInstruction {
        span: Span::new(0, 66),
        expr: ShellOrExecExpr::Exec(StringArray {
          span: Span::new(13, 66),
          elements: vec![SpannedString {
            span: Span::new(24, 30),
            content: "echo".to_string(),
          }, SpannedString {
            span: Span::new(42, 55),
            content: "hello world".to_string(),
          }],
        })
      }.into()
    );

    Ok(())
  }

#[test]
  fn test_relative_span() {
    let d = Dockerfile::parse(indoc(r#"
      FROM alpine:3.10 as build
      FROM alpine:3.10

      RUN echo "hello world"

      COPY --from=build /foo /bar
    "#)).unwrap();

    let first_from = &d.instructions[0].as_from().unwrap();
    assert_eq!(
      first_from.alias.as_ref().unwrap().span.relative_span(&d),
      (0, Span::new(20, 25))
    );

    let copy = &d.instructions[3].as_copy().unwrap();

    let len = copy.span.end - copy.span.start;
    let content = &d.content[copy.span.start .. copy.span.end];

    let (rel_line_index, rel_span) = copy.span.relative_span(&d);
    let rel_len = rel_span.end - rel_span.start;
    assert_eq!(len, rel_len);

    let rel_line = d.content.lines().collect::<Vec<&str>>()[rel_line_index];
    let rel_content = &rel_line[rel_span.start .. rel_span.end];
    assert_eq!(rel_line, "COPY --from=build /foo /bar");
    assert_eq!(content, rel_content);

    // COPY --from=build /foo /bar
    assert_eq!(
      copy.span.relative_span(&d),
      (5, Span::new(0, 27))
    );

    // --from=build
    assert_eq!(
      copy.flags[0].span.relative_span(&d),
      (5, Span::new(5, 17))
    );

    // build
    assert_eq!(
      copy.flags[0].value.span.relative_span(&d),
      (5, Span::new(12, 17))
    );
  }

#[test]
  fn test_stages() {
    let dockerfile = Dockerfile::parse(indoc(r#"
      FROM alpine:3.12

      FROM ubuntu:18.04 as build
      RUN echo "hello world"

      FROM build as build2
      COPY /foo /bar
      COPY /bar /baz

      FROM build as build3
    "#)).unwrap();

    let stages = Stages::new(&dockerfile);
    assert_eq!(stages.stages.len(), 4);
    assert_eq!(stages.stages[1], Stage {
      index: 1,
      name: Some("build".into()),
      instructions: vec![&dockerfile.instructions[1], &dockerfile.instructions[2]],
      parent: StageParent::Image(&ImageRef::parse("ubuntu:18.04")),
      root: StageParent::Image(&ImageRef::parse("ubuntu:18.04")),
    });

    assert_eq!(stages.stages[2], Stage {
      index: 2,
      name: Some("build2".into()),
      instructions: dockerfile.instructions[3..5].iter().collect(),
      parent: StageParent::Stage(1),
      root: StageParent::Image(&ImageRef::parse("ubuntu:18.04")),
    });

    assert_eq!(stages.stages[3], Stage {
      index: 3,
      name: Some("build3".into()),
      instructions: vec![&dockerfile.instructions[6]],
      parent: StageParent::Stage(2),
      root: StageParent::Image(&ImageRef::parse("ubuntu:18.04")),
    });
  }

#[test]
  fn test_stages_get() {
    let dockerfile = Dockerfile::parse(indoc(r#"
      FROM alpine:3.12

      FROM ubuntu:18.04 as build

      FROM build as build2
    "#)).unwrap();

    let stages = Stages::new(&dockerfile);
    assert_eq!(stages.get("0").unwrap().index, 0);
    assert_eq!(stages.get("1"), stages.get("build"));
    assert_eq!(stages.get("2"), stages.get("build2"));
  }

#[test]
fn parse_basic() -> Result<(), Error> {
    let dockerfile = Dockerfile::parse(
        r#"
    FROM alpine:3.10

    RUN apk add --no-cache curl
  "#,
    )?;

    assert_eq!(dockerfile.instructions.len(), 2);

    assert_eq!(
        dockerfile.instructions[0],
        Instruction::From(FromInstruction {
            span: Span { start: 5, end: 21 },
            image: SpannedString {
                span: Span { start: 10, end: 21 },
                content: "alpine:3.10".into(),
            },
            image_parsed: ImageRef {
                registry: None,
                image: "alpine".into(),
                tag: Some("3.10".into()),
                hash: None
            },
            index: 0,
            alias: None,
            flags: vec![],
        })
    );

    assert_eq!(
        &dockerfile.instructions[1]
            .as_run()
            .unwrap()
            .as_shell()
            .unwrap()
            .to_string(),
        "apk add --no-cache curl"
    );

    Ok(())
}

#[test]
fn parse_multiline_shell() -> Result<(), Error> {
    let dockerfile = Dockerfile::parse(indoc(
        r#"
    RUN apk add --no-cache \
        curl

    RUN foo
  "#
    ))?;

    assert_eq!(dockerfile.instructions.len(), 2);

    // note: 9 spaces due to 1 before the \ + 8 for indent
    assert_eq!(
        &dockerfile.instructions[0]
            .as_run()
            .unwrap()
            .as_shell()
            .unwrap()
            .to_string(),
        "apk add --no-cache     curl"
    );

    assert_eq!(
        &dockerfile.instructions[1]
            .as_run()
            .unwrap()
            .as_shell()
            .unwrap()
            .to_string(),
        "foo"
    );

    Ok(())
}

#[test]
fn parse_multiline_exec() -> Result<(), Error> {
    let dockerfile = Dockerfile::parse(
        r#"
    RUN ["apk", \
         "add", \
         "--no-cache", \
         "curl"]

    RUN foo
  "#,
    )?;

    assert_eq!(dockerfile.instructions.len(), 2);

    // note: 9 spaces due to 1 before the \ + 8 for indent
    assert_eq!(
        dockerfile.instructions[0]
            .as_run()
            .unwrap()
            .as_exec()
            .unwrap()
            .as_str_vec(),
        &["apk", "add", "--no-cache", "curl"]
    );

    assert_eq!(
        &dockerfile.instructions[1]
            .as_run()
            .unwrap()
            .as_shell()
            .unwrap()
            .to_string(),
        "foo"
    );

    Ok(())
}

#[test]
fn parse_label() -> Result<(), Error> {
    let dockerfile = Dockerfile::parse(
        r#"
    LABEL foo=bar

    LABEL "foo"="bar"

    LABEL "foo=bar"=bar

    LABEL foo="bar\
          baz"

    RUN foo
  "#,
    )?;

    assert_eq!(dockerfile.instructions.len(), 5);

    assert_eq!(
        dockerfile.instructions[0].as_label().unwrap(),
        &LabelInstruction {
            span: Span::new(5, 18),
            labels: vec![Label::new(
                Span::new(11, 18),
                SpannedString {
                    span: Span::new(11, 14),
                    content: "foo".to_string(),
                },
                SpannedString {
                    span: Span::new(15, 18),
                    content: "bar".to_string(),
                },
            )]
        }
    );

    assert_eq!(
        dockerfile.instructions[1],
        Instruction::Label(LabelInstruction {
            span: Span::new(24, 41),
            labels: vec![Label::new(
                Span::new(30, 41),
                SpannedString {
                    span: Span::new(30, 35),
                    content: "foo".to_string(),
                },
                SpannedString {
                    span: Span::new(36, 41),
                    content: "bar".to_string(),
                },
            )]
        })
    );

    assert_eq!(
        dockerfile.instructions[2],
        Instruction::Label(LabelInstruction {
            span: Span::new(47, 66),
            labels: vec![Label::new(
                Span::new(53, 66),
                SpannedString {
                    span: Span::new(53, 62),
                    content: "foo=bar".to_string(),
                },
                SpannedString {
                    span: Span::new(63, 66),
                    content: "bar".to_string(),
                },
            )]
        })
    );

    assert_eq!(
        dockerfile.instructions[3],
        Instruction::Label(LabelInstruction {
            span: Span::new(72, 102),
            labels: vec![Label::new(
                Span::new(78, 102),
                SpannedString {
                    span: Span::new(78, 81),
                    content: "foo".to_string(),
                },
                SpannedString {
                    span: Span::new(82, 102),
                    content: "bar          baz".to_string(),
                },
            )]
        })
    );

    assert_eq!(
        &dockerfile.instructions[4]
            .as_run()
            .unwrap()
            .as_shell()
            .unwrap()
            .to_string(),
        "foo"
    );

    // ambiguous line continuation is an error
    assert!(Dockerfile::parse(
        r#"
    LABEL foo="bar\
          baz"\

    RUN foo
  "#
    )
    .is_err());

    Ok(())
}

#[test]
fn parse_comment() -> Result<(), Error> {
    let dockerfile = Dockerfile::parse(
        r#"
    # lorem ipsum
    LABEL foo=bar
    #dolor sit amet
    # consectetur adipiscing elit

    # sed do eiusmod
    # Duis aute irure dolor
    # tempor incididunt ut labore
    LABEL "foo"="bar"
    # et dolore magna aliqua
    LABEL "foo=bar"=bar
    #Ut enim ad minim veniam
    LABEL foo="bar\
          baz"
    # quis nostrud exercitation

    # ullamco laboris nisi

    RUN foo

    ENV foo=a \
      # test comment


      bar=b

    run [ \
      "echo", \
      # hello world
      "hello", \
      "world" \
    ]

    run echo 'hello # world'
  "#,
    )?;

    assert_eq!(dockerfile.instructions.len(), 8);

    assert_eq!(
        &dockerfile.instructions[4]
            .as_run()
            .unwrap()
            .as_shell()
            .unwrap()
            .to_string(),
        "foo"
    );

    assert_eq!(
        dockerfile.instructions[5].as_env().unwrap().vars,
        vec![
            EnvVar::new(
                Span::new(396, 401),
                SpannedString {
                    span: Span::new(396, 399),
                    content: "foo".to_string(),
                },
                bs((400, 401), "a")
            ),
            EnvVar::new(
                Span::new(433, 438),
                SpannedString {
                    span: Span::new(433, 436),
                    content: "bar".to_string(),
                },
                bs((437, 438), "b")
            ),
        ]
    );

    assert_eq!(
        dockerfile.instructions[6]
            .as_run()
            .unwrap()
            .as_exec()
            .unwrap()
            .as_str_vec(),
        vec!["echo", "hello", "world"]
    );

    assert_eq!(
        dockerfile.instructions[7]
            .as_run()
            .unwrap()
            .as_shell()
            .unwrap()
            .to_string(),
        "echo 'hello # world'"
    );

    Ok(())
}

#[test]
fn parse_from_sha256_digest() -> Result<(), Error> {
    let dockerfile = Dockerfile::parse(
        r#"
    FROM alpine@sha256:074d3636ebda6dd446d0d00304c4454f468237fdacf08fb0eeac90bdbfa1bac7 as foo
  "#,
    )?;

    assert_eq!(dockerfile.instructions.len(), 1);

    assert_eq!(
        dockerfile.instructions[0].as_from(),
        Some(&FromInstruction {
            index: 0,
            span: Span::new(5, 95),
            image: SpannedString {
                span: Span { start: 10, end: 88 },
                content:
                    "alpine@sha256:074d3636ebda6dd446d0d00304c4454f468237fdacf08fb0eeac90bdbfa1bac7"
                        .into(),
            },
            image_parsed: ImageRef {
                registry: None,
                image: "alpine".into(),
                tag: None,
                hash: Some(
                    "sha256:074d3636ebda6dd446d0d00304c4454f468237fdacf08fb0eeac90bdbfa1bac7"
                        .into()
                ),
            },
            alias: Some(SpannedString {
                span: Span { start: 92, end: 95 },
                content: "foo".into(),
            }),
            flags: vec![],
        })
    );

    Ok(())
}
