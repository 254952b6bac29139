use nvimpam::card::keyword::{classify, Keyword, LineKind};

#[test]
fn parse_recognizes_each_card() {
    let cases = [
        ("NODE  / ", Keyword::Node),
        ("CNODE / ", Keyword::Cnode),
        ("MASS  / ", Keyword::Mass),
        ("NSMAS / ", Keyword::Nsmas),
        ("NSMAS2/ ", Keyword::Nsmas2),
        ("SOLID / ", Keyword::Solid),
        ("HEXA20/ ", Keyword::Hexa20),
        ("PENT15/ ", Keyword::Pent15),
        ("PENTA6/ ", Keyword::Penta6),
        ("TETR10/ ", Keyword::Tetr10),
        ("TETR4 / ", Keyword::Tetr4),
        ("BSHEL / ", Keyword::Bshel),
        ("TSHEL / ", Keyword::Tshel),
        ("SHELL / ", Keyword::Shell),
        ("SHEL6 / ", Keyword::Shel6),
        ("SHEL8 / ", Keyword::Shel8),
        ("MEMBR / ", Keyword::Membr),
        ("BEAM  / ", Keyword::Beam),
        ("SPRGBM/ ", Keyword::Sprgbm),
        ("BAR   / ", Keyword::Bar),
        ("SPRING/ ", Keyword::Spring),
        ("JOINT / ", Keyword::Joint),
        ("KJOIN / ", Keyword::Kjoin),
        ("MTOJNT/ ", Keyword::Mtojnt),
        ("SPHEL / ", Keyword::Sphel),
        ("SPHELO/ ", Keyword::Sphelo),
        ("GAP   / ", Keyword::Gap),
        ("IMPMA / ", Keyword::Impma),
        ("ELINK / ", Keyword::Elink),
    ];
    for (pattern, kw) in cases.iter() {
        assert_eq!(Keyword::parse(pattern), Some(*kw));
        let long = format!("{}    1    2    3", pattern);
        assert_eq!(Keyword::parse(&long), Some(*kw));
    }
}

#[test]
fn parse_rejects_near_misses() {
    assert_eq!(Keyword::parse(""), None);
    assert_eq!(Keyword::parse("NODE  /"), None);
    assert_eq!(Keyword::parse("node  / 1"), None);
    assert_eq!(Keyword::parse("NODE / 1"), None);
    assert_eq!(Keyword::parse("NODE  /x1"), None);
    assert_eq!(Keyword::parse(" NODE  / "), None);
}

#[test]
fn classify_lines() {
    assert_eq!(classify("SHELL /     3129"), LineKind::Card(Keyword::Shell));
    assert_eq!(classify("#Comment"), LineKind::Comment);
    assert_eq!(classify("$"), LineKind::Comment);
    assert_eq!(classify("invalid line here"), LineKind::Unrecognized);
    assert_eq!(classify(""), LineKind::Unrecognized);
    assert_eq!(classify("NODE"), LineKind::Unrecognized);
}
