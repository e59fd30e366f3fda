use pvl::{Error, PvlReader, ScanEvent, Symbol, Value, ValueType, CONTINUATION_INDENT};

fn read_pair(text: &str) -> (Symbol, Value) {
    let mut reader = PvlReader::new(text);
    let kvp = reader.read_key_value_pair_raw().expect("a key/value pair");
    let key = match kvp.key() {
        Symbol::Pointer(s) => Symbol::Pointer(s.clone()),
        Symbol::Key(s) => Symbol::Key(s.clone()),
        Symbol::Group => Symbol::Group,
        Symbol::Object => Symbol::Object,
        Symbol::BlankLine => Symbol::BlankLine,
    };
    (key, Value::new(kvp.value().raw()))
}

#[test]
fn key_with_quoted_string() {
    let (key, value) = read_pair("KEY = \"a string\"");
    assert!(matches!(key, Symbol::Key(ref k) if k == "KEY"));
    assert_eq!(value.value_type(), ValueType::String);
    assert_eq!(value.raw(), "\"a string\"");
    assert_eq!(value.parse_string().unwrap(), "\"a string\"");
}

#[test]
fn key_with_float() {
    let (_, value) = read_pair("KEY = 3.14");
    assert_eq!(value.value_type(), ValueType::Float);
    assert_eq!(value.raw().parse::<f64>().unwrap(), 3.14);
    assert!(matches!(value.parse_u32(), Err(Error::InvalidType)));
}

#[test]
fn key_with_array() {
    let (key, value) = read_pair("BAD_VALUE = (1,2,3)");
    assert!(matches!(key, Symbol::Key(ref k) if k == "BAD_VALUE"));
    assert_eq!(value.value_type(), ValueType::Array);
    let elems = value.parse_array().unwrap();
    assert_eq!(elems.len(), 3);
    let raws: Vec<&str> = elems.iter().map(|e| e.raw()).collect();
    assert_eq!(raws, vec!["1", "2", "3"]);
    for e in &elems {
        assert_eq!(e.value_type(), ValueType::Integer);
    }
}

#[test]
fn comment_interior_and_cursor() {
    let mut reader = PvlReader::new("/* hello */X");
    assert!(reader.is_at_multiline_comment_start().unwrap());
    assert_eq!(reader.skip_multiline_comment().unwrap(), " hello ");
    assert_eq!(reader.current_char().unwrap(), 'X');

    let mut reader = PvlReader::new("/* hello */");
    assert_eq!(reader.skip_multiline_comment().unwrap(), " hello ");
    assert!(reader.is_eof());
}

#[test]
fn comments_do_not_nest() {
    let mut reader = PvlReader::new("/* a /* b */ c */");
    assert_eq!(reader.skip_multiline_comment().unwrap(), " a /* b ");
    assert_eq!(reader.current_char().unwrap(), ' ');
}

#[test]
fn comment_errors() {
    let mut reader = PvlReader::new("KEY = 1");
    assert!(matches!(reader.skip_multiline_comment(), Err(Error::CommentIsntComment)));
    assert_eq!(reader.current_char().unwrap(), 'K');

    let mut reader = PvlReader::new("/* never closed");
    assert!(matches!(reader.skip_multiline_comment(), Err(Error::Eof)));
    assert!(reader.is_eof());
}

#[test]
fn probes_past_the_end_give_eof() {
    let mut reader = PvlReader::new("ab");
    assert_eq!(reader.char_at(1).unwrap(), 'b');
    assert!(matches!(reader.char_at(2), Err(Error::Eof)));
    assert!(matches!(reader.char_at(usize::MAX), Err(Error::Eof)));
    assert!(matches!(reader.char_at_pos_plus_n(usize::MAX), Err(Error::Eof)));
    assert_eq!(reader.peek_char().unwrap(), 'b');
    assert_eq!(reader.next().unwrap(), 'b');
    assert!(matches!(reader.peek_char(), Err(Error::Eof)));
    assert!(matches!(reader.next(), Err(Error::Eof)));
    assert!(reader.is_eof());
    assert!(matches!(reader.next(), Err(Error::Eof)));
    assert!(matches!(reader.current_char(), Err(Error::Eof)));
    assert!(matches!(reader.jump(1), Err(Error::Eof)));
    assert!(matches!(reader.is_at_pointer(), Err(Error::Eof)));
    assert!(matches!(reader.is_at_equals(), Err(Error::Eof)));
    assert!(matches!(reader.is_at_group(), Err(Error::Eof)));
}

#[test]
fn jump_is_clamped_at_the_end() {
    let mut reader = PvlReader::new("abcdef");
    reader.jump(2).unwrap();
    assert_eq!(reader.current_char().unwrap(), 'c');
    reader.jump(100).unwrap();
    assert!(reader.is_eof());
}

#[test]
fn line_starts() {
    let mut reader = PvlReader::new("a\nb\r\nc");
    assert!(reader.is_at_line_start().unwrap());
    reader.next().unwrap();
    assert!(!reader.is_at_line_start().unwrap());
    reader.next().unwrap();
    assert!(reader.is_at_line_start().unwrap());
    reader.jump(2).unwrap();
    assert!(reader.is_at_line_start().unwrap());
}

#[test]
fn keywords_at_cursor() {
    let reader = PvlReader::new("GROUP = X\n");
    assert!(reader.is_at_group().unwrap());
    assert!(!reader.is_at_object().unwrap());
    let reader = PvlReader::new("OBJECT = X\n");
    assert!(reader.is_at_object().unwrap());
    assert!(!reader.is_at_group().unwrap());
    let reader = PvlReader::new("GROUP");
    assert!(matches!(reader.is_at_group(), Err(Error::Eof)));
    assert!(matches!(reader.is_at_object(), Err(Error::Eof)));
    let reader = PvlReader::new("GROUP\n");
    assert!(reader.is_at_group().unwrap());
    assert!(!reader.is_at_object().unwrap());
    let reader = PvlReader::new("OBJECT");
    assert!(reader.is_at_object().unwrap());
    let reader = PvlReader::new("^IMAGE = 5");
    assert!(reader.is_at_pointer().unwrap());
    let mut reader = PvlReader::new("A=1");
    assert!(!reader.is_at_equals().unwrap());
    reader.next().unwrap();
    assert!(reader.is_at_equals().unwrap());
}

#[test]
fn symbols_of_each_kind() {
    let mut reader = PvlReader::new("^IMAGE = 12\n");
    match reader.read_symbol().unwrap() {
        Symbol::Pointer(name) => assert_eq!(name, "^IMAGE"),
        other => panic!("unexpected {:?}", other),
    }
    assert!(reader.is_at_equals().unwrap());
    let mut reader = PvlReader::new("GROUP = X\n");
    assert!(matches!(reader.read_symbol().unwrap(), Symbol::Group));
    let mut reader = PvlReader::new("  OBJECT  = X\n");
    assert!(matches!(reader.read_symbol().unwrap(), Symbol::Object));
    let mut reader = PvlReader::new("   \nKEY = 1\n");
    assert!(matches!(reader.read_symbol().unwrap(), Symbol::BlankLine));
    assert_eq!(reader.current_char().unwrap(), '\n');
    let mut reader = PvlReader::new("  SPACED KEY \t= 1");
    match reader.read_symbol().unwrap() {
        Symbol::Key(name) => assert_eq!(name, "SPACED KEY"),
        other => panic!("unexpected {:?}", other),
    }
}

#[test]
fn symbol_value() {
    assert_eq!(Symbol::Key("A".to_string()).value(), Some("A".to_string()));
    assert_eq!(Symbol::Pointer("^B".to_string()).value(), Some("^B".to_string()));
    assert_eq!(Symbol::Group.value(), None);
    assert_eq!(Symbol::BlankLine.value(), None);
}

#[test]
fn read_symbol_errors() {
    let mut reader = PvlReader::new("KEY = 1\n");
    reader.next().unwrap();
    assert!(matches!(reader.read_symbol(), Err(Error::Programming(_))));
    assert!(matches!(reader.read_key_value_pair_raw(), Err(Error::Programming(_))));
    assert_eq!(reader.current_char().unwrap(), 'E');

    let text = format!("{}MORE\n", " ".repeat(CONTINUATION_INDENT));
    let mut reader = PvlReader::new(&text);
    assert!(reader.is_at_value_line_continuation().unwrap());
    assert!(matches!(reader.read_symbol(), Err(Error::Syntax(_))));
    assert!(matches!(reader.read_key_value_pair_raw(), Err(Error::Syntax(_))));
}

#[test]
fn continuation_probe() {
    let reader = PvlReader::new("short");
    assert!(matches!(reader.is_at_value_line_continuation(), Err(Error::Eof)));
    let mut reader = PvlReader::new(&format!("x{}y", " ".repeat(40)));
    reader.next().unwrap();
    assert!(!reader.is_at_value_line_continuation().unwrap());
    let reader = PvlReader::new(&format!("{}y", " ".repeat(CONTINUATION_INDENT - 1) + "x"));
    assert!(!reader.is_at_value_line_continuation().unwrap());
}

#[test]
fn continuation_lines_are_joined_in_order() {
    let pad = " ".repeat(CONTINUATION_INDENT);
    let text = format!("KEY = \"first \n{}second  \n{}third\"\nNEXT = 1\n", pad, pad);
    let mut reader = PvlReader::new(&text);
    let kvp = reader.read_key_value_pair_raw().unwrap();
    assert_eq!(kvp.value().raw(), "\"firstsecondthird\"");
    assert_eq!(kvp.value().value_type(), ValueType::String);
    assert_eq!(reader.current_char().unwrap(), 'N');
    let next = reader.read_key_value_pair_raw().unwrap();
    assert!(matches!(next.key(), Symbol::Key(k) if k == "NEXT"));
    assert_eq!(next.value().raw(), "1");
}

#[test]
fn one_column_short_is_not_a_continuation() {
    let short = " ".repeat(CONTINUATION_INDENT - 1);
    let text = format!("KEY = first\n{}second\n", short);
    let mut reader = PvlReader::new(&text);
    let kvp = reader.read_key_value_pair_raw().unwrap();
    assert_eq!(kvp.value().raw(), "first");
    let next = reader.read_key_value_pair_raw().unwrap();
    assert!(matches!(next.key(), Symbol::Key(k) if k == "second"));
}

#[test]
fn equals_inside_a_value_drops_the_next_byte() {
    let mut reader = PvlReader::new("X = a=bc\n");
    let kvp = reader.read_key_value_pair_raw().unwrap();
    assert_eq!(kvp.value().raw(), "ac");
    let mut reader = PvlReader::new("X=5\n");
    let kvp = reader.read_key_value_pair_raw().unwrap();
    assert_eq!(kvp.value().raw(), "");
}

#[test]
fn read_remaining_line_stops_at_line_end() {
    let mut reader = PvlReader::new("K =  spaced out  \r\nNEXT");
    reader.read_symbol().unwrap();
    assert_eq!(reader.read_remaining_line().unwrap(), "spaced out");
    assert_eq!(reader.current_char().unwrap(), '\r');
}

#[test]
fn scans_a_whole_label() {
    let text = "/* header */\nPDS_VERSION_ID = PDS3\n^IMAGE = 12\nGROUP = G\n  EXPOSURE = 1.5\nEND_GROUP = G\n\nEND\n";
    let mut reader = PvlReader::new(text);
    let mut keys: Vec<String> = Vec::new();
    let mut comments: Vec<String> = Vec::new();
    while !reader.is_eof() {
        if reader.is_at_multiline_comment_start().unwrap() {
            comments.push(reader.skip_multiline_comment().unwrap());
        } else if reader.is_at_line_start().unwrap() {
            match reader.read_key_value_pair_raw() {
                Ok(kvp) => {
                    let name = match kvp.key() {
                        Symbol::Group => "<group>".to_string(),
                        Symbol::Object => "<object>".to_string(),
                        Symbol::BlankLine => "<blank>".to_string(),
                        s => s.value().unwrap(),
                    };
                    keys.push(format!("{}:{}", name, kvp.value().raw()));
                }
                Err(_) => {
                    let _ = reader.next();
                }
            }
        } else {
            let _ = reader.next();
        }
    }
    assert_eq!(comments, vec![" header ".to_string()]);
    assert_eq!(
        keys,
        vec![
            "PDS_VERSION_ID:PDS3",
            "^IMAGE:12",
            "<group>:G",
            "EXPOSURE:1.5",
            "END_GROUP:G",
            "<blank>:",
            "END:",
        ]
    );
}

#[test]
fn scan_steps_over_a_label() {
    let pad = " ".repeat(CONTINUATION_INDENT);
    let text = format!(
        "/* header */\nA = 1\n{}X\nB = \"s\"\n{}2\n{}3\n  /* open",
        pad, pad, pad
    );
    let mut reader = PvlReader::new(&text);
    let mut seen: Vec<String> = Vec::new();
    while !reader.is_eof() {
        let event = reader.scan_step();
        seen.push(match event {
            ScanEvent::Comment(c) => format!("comment:{}", c),
            ScanEvent::Pair(kvp) => format!("pair:{}:{}", kvp.key().value().unwrap(), kvp.value().raw()),
            ScanEvent::Failed(Error::Syntax(_)) => "syntax".to_string(),
            ScanEvent::Failed(e) => format!("failed:{:?}", e),
            ScanEvent::Advanced => "advanced".to_string(),
        });
    }
    assert_eq!(
        seen,
        vec![
            "comment: header ",
            "advanced",
            "pair:A:1X",
            "pair:B:\"s\"23",
            "pair:/* open:",
        ]
    );
    assert!(matches!(reader.scan_step(), ScanEvent::Failed(Error::Eof)));
}

#[test]
fn scan_step_reports_stray_continuations() {
    let text = format!("{}X\nA = 1", " ".repeat(CONTINUATION_INDENT));
    let mut reader = PvlReader::new(&text);
    assert!(matches!(reader.scan_step(), ScanEvent::Failed(Error::Syntax(_))));
    assert_eq!(reader.current_char().unwrap(), ' ');
    let mut reader = PvlReader::new("x /* never closed");
    assert!(matches!(reader.scan_step(), ScanEvent::Pair(_)));
    let mut reader = PvlReader::new("/* never closed");
    assert!(matches!(reader.scan_step(), ScanEvent::Failed(Error::Eof)));
    assert!(reader.is_eof());
}

#[test]
fn many_continuation_lines() {
    let pad = " ".repeat(CONTINUATION_INDENT);
    let mut text = String::from("LIST = ( a,\n");
    for part in [" b,", "c , ", "d )"] {
        text.push_str(&pad);
        text.push_str(part);
        text.push('\n');
    }
    text.push_str("NEXT = 2\n");
    let mut reader = PvlReader::new(&text);
    let kvp = reader.read_key_value_pair_raw().unwrap();
    assert_eq!(kvp.value().raw(), "( a,b,c ,d )");
    assert_eq!(kvp.value().value_type(), ValueType::Array);
    assert_eq!(reader.current_char().unwrap(), 'N');
}
