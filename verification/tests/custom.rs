use unearth::custom::{from_json, parse_hex, Length, Spec, MAX_SIZE_CAP};
use unearth::json::Json;
use unearth::signatures::Extent;

/// Reads the values that the tests write: objects, arrays, texts without escapes, and integers.
struct Reader<'a> {
    text: &'a [u8],
    at: usize,
}

impl Reader<'_> {
    fn next(&mut self) -> u8 {
        while self.text[self.at].is_ascii_whitespace() {
            self.at += 1;
        }
        self.text[self.at]
    }

    fn text(&mut self) -> String {
        assert_eq!(self.next(), b'"');
        let start = self.at + 1;
        let len = self.text[start..].iter().position(|&b| b == b'"').unwrap();
        self.at = start + len + 1;
        String::from_utf8(self.text[start..start + len].to_vec()).unwrap()
    }

    fn value(&mut self) -> Json {
        match self.next() {
            b'"' => Json::Text(self.text()),
            b'[' => {
                let mut items = Vec::new();
                self.at += 1;
                while self.next() != b']' {
                    items.push(self.value());
                    if self.next() == b',' {
                        self.at += 1;
                    }
                }
                self.at += 1;
                Json::Array(items)
            }
            b'{' => {
                let mut members = Vec::new();
                self.at += 1;
                while self.next() != b'}' {
                    let key = self.text();
                    assert_eq!(self.next(), b':');
                    self.at += 1;
                    members.push((key, self.value()));
                    if self.next() == b',' {
                        self.at += 1;
                    }
                }
                self.at += 1;
                Json::Object(members)
            }
            _ => {
                let mut n = 0u64;
                while self.at < self.text.len() && self.text[self.at].is_ascii_digit() {
                    n = n * 10 + (self.text[self.at] - b'0') as u64;
                    self.at += 1;
                }
                Json::Unsigned(n)
            }
        }
    }
}

fn parse_json(text: &str) -> Option<Json> {
    Some(
        Reader {
            text: text.as_bytes(),
            at: 0,
        }
        .value(),
    )
}

fn spec(src: &str) -> Result<Spec, String> {
    Spec::parse(&parse_json(src).unwrap())
}

#[test]
fn parses_a_fixed_carver() {
    let s = spec(
        r#"{"name":"Widget","ext":"wdg","magic":"57 44 47 31","max_size":4096,
            "length":{"strategy":"fixed","size":512}}"#,
    )
    .unwrap();
    assert_eq!(s.name, "Widget");
    assert_eq!(s.ext, "wdg");
    assert_eq!(s.magic, vec![0x57, 0x44, 0x47, 0x31]);
    assert_eq!(s.magic_offset, 0);
    assert_eq!(s.max_size, 4096);
    assert_eq!(s.length, Length::Fixed(512));
}

#[test]
fn parses_a_size_field_carver_with_defaults_and_secondary() {
    let s = spec(
        r#"{"name":"Blob","ext":"blob","magic":"0xBLOBBAD","magic_offset":4,
            "secondary":{"offset":8,"bytes":"AA BB"},"max_size":1000000,
            "length":{"strategy":"size_field","offset":4,"width":32}}"#,
    );
    // "BLOBBAD" is not valid hex, so this must be an error, not a panic.
    assert!(s.is_err());

    let s = spec(
        r#"{"name":"Blob","ext":"blob","magic":"CA FE","magic_offset":4,
            "secondary":{"offset":8,"bytes":"AA BB"},"max_size":1000000,
            "length":{"strategy":"size_field","offset":4,"width":32,"endian":"be","mul":2,"add":16}}"#,
    )
    .unwrap();
    assert_eq!(s.magic_offset, 4);
    assert_eq!(s.secondary, Some((8, vec![0xAA, 0xBB])));
    assert_eq!(
        s.length,
        Length::SizeField {
            offset: 4,
            width: 32,
            big_endian: true,
            mul: 2,
            add: 16
        }
    );
    // size_field defaults: little-endian, mul 1, add 0.
    let d = spec(
        r#"{"name":"D","ext":"d","magic":"01 02","max_size":100,
            "length":{"strategy":"size_field","offset":0,"width":16}}"#,
    )
    .unwrap();
    assert_eq!(
        d.length,
        Length::SizeField {
            offset: 0,
            width: 16,
            big_endian: false,
            mul: 1,
            add: 0
        }
    );
}

#[test]
fn parses_a_footer_carver() {
    let s = spec(
        r#"{"name":"Doc","ext":"doc9","magic":"25 50","max_size":100,
            "length":{"strategy":"footer","marker":"0A 25 25 45 4F 46","trailing":1}}"#,
    )
    .unwrap();
    assert_eq!(
        s.length,
        Length::Footer {
            marker: vec![0x0A, 0x25, 0x25, 0x45, 0x4F, 0x46],
            trailing: 1
        }
    );
}

#[test]
fn rejects_bad_specs() {
    // Missing max_size.
    assert!(spec(
        r#"{"name":"x","ext":"x","magic":"AB","length":{"strategy":"fixed","size":1}}"#
    )
    .is_err());
    // Empty magic.
    assert!(spec(
        r#"{"name":"x","ext":"x","magic":"","max_size":10,"length":{"strategy":"fixed","size":1}}"#
    )
    .is_err());
    // max_size over the cap.
    let over = format!(
        r#"{{"name":"x","ext":"x","magic":"AB","max_size":{},"length":{{"strategy":"fixed","size":1}}}}"#,
        MAX_SIZE_CAP + 1
    );
    assert!(spec(&over).is_err());
    // Bad width.
    assert!(spec(
        r#"{"name":"x","ext":"x","magic":"AB","max_size":10,"length":{"strategy":"size_field","offset":0,"width":24}}"#
    )
    .is_err());
    // Unknown strategy.
    assert!(spec(
        r#"{"name":"x","ext":"x","magic":"AB","max_size":10,"length":{"strategy":"bogus"}}"#
    )
    .is_err());
    // Ext with a path separator.
    assert!(spec(
        r#"{"name":"x","ext":"../etc","magic":"AB","max_size":10,"length":{"strategy":"fixed","size":1}}"#
    )
    .is_err());
    // Odd-length hex magic.
    assert!(spec(
        r#"{"name":"x","ext":"x","magic":"ABC","max_size":10,"length":{"strategy":"fixed","size":1}}"#
    )
    .is_err());
}

#[test]
fn from_json_reports_offending_index() {
    let arr = parse_json(
        r#"[{"name":"ok","ext":"ok","magic":"AB CD","max_size":10,"length":{"strategy":"fixed","size":4}},
           {"name":"bad","ext":"bad","magic":"AB","length":{"strategy":"fixed","size":4}}]"#,
    )
    .unwrap();
    let err = from_json(&arr).unwrap_err();
    assert!(err.contains("custom_carvers[1]"), "got: {err}");
}

#[test]
fn to_signature_carries_fields_through() {
    let owned = spec(
        r#"{"name":"Widget","ext":"wdg","magic":"57 44 47 31","max_size":4096,
            "length":{"strategy":"fixed","size":512}}"#,
    )
    .unwrap();
    let sig = owned.to_signature();
    assert_eq!(sig.ext, "wdg");
    assert_eq!(sig.magic, &[0x57, 0x44, 0x47, 0x31]);
    assert!(matches!(sig.extent, Extent::Fixed { size: 512 }));
    assert_eq!(sig.max_size, 4096);
}

#[test]
fn hex_parsing_accepts_separators_and_prefix() {
    assert_eq!(parse_hex("89 50 4E").unwrap(), vec![0x89, 0x50, 0x4E]);
    assert_eq!(parse_hex("89:50:4e").unwrap(), vec![0x89, 0x50, 0x4E]);
    assert_eq!(parse_hex("0x89504E").unwrap(), vec![0x89, 0x50, 0x4E]);
    assert_eq!(parse_hex("0 X8 9:5\n04\t: e\r").unwrap(), vec![0x89, 0x50, 0x4E]);
    assert_eq!(parse_hex(" : ").unwrap(), Vec::<u8>::new());
    assert!(parse_hex("8G").is_err());
}
