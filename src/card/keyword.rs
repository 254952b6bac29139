//! Classification of a line by the keyword that opens it.
use vstd::prelude::*;
use vstd::string::StringSliceAdditionalSpecFns;

verus! {

/// The card types a line may belong to. Only the keyword is recorded, not
/// the subtype: CNTAC types 33 and 36 would both be one variant.
#[derive(Copy, Clone, PartialEq, Eq, Debug, Structural)]
pub enum Keyword {
    // Node
    Node,
    Cnode,
    Mass,
    Nsmas,
    Nsmas2,
    // Element
    Solid,
    Hexa20,
    Pent15,
    Penta6,
    Tetr10,
    Tetr4,
    Bshel,
    Tshel,
    Shell,
    Shel6,
    Shel8,
    Membr,
    Beam,
    Sprgbm,
    Bar,
    Spring,
    Joint,
    Kjoin,
    Mtojnt,
    Sphel,
    Sphelo,
    Gap,
    Impma,
    // Link
    Elink,
}

/// The eight bytes that open a line of the given card type: the keyword,
/// padded with spaces to six characters, then `/` and a space.
pub open spec fn card_pattern(k: Keyword) -> Seq<char> {
    match k {
        Keyword::Node => seq!['N', 'O', 'D', 'E', ' ', ' ', '/', ' '],
        Keyword::Cnode => seq!['C', 'N', 'O', 'D', 'E', ' ', '/', ' '],
        Keyword::Mass => seq!['M', 'A', 'S', 'S', ' ', ' ', '/', ' '],
        Keyword::Nsmas => seq!['N', 'S', 'M', 'A', 'S', ' ', '/', ' '],
        Keyword::Nsmas2 => seq!['N', 'S', 'M', 'A', 'S', '2', '/', ' '],
        Keyword::Solid => seq!['S', 'O', 'L', 'I', 'D', ' ', '/', ' '],
        Keyword::Hexa20 => seq!['H', 'E', 'X', 'A', '2', '0', '/', ' '],
        Keyword::Pent15 => seq!['P', 'E', 'N', 'T', '1', '5', '/', ' '],
        Keyword::Penta6 => seq!['P', 'E', 'N', 'T', 'A', '6', '/', ' '],
        Keyword::Tetr10 => seq!['T', 'E', 'T', 'R', '1', '0', '/', ' '],
        Keyword::Tetr4 => seq!['T', 'E', 'T', 'R', '4', ' ', '/', ' '],
        Keyword::Bshel => seq!['B', 'S', 'H', 'E', 'L', ' ', '/', ' '],
        Keyword::Tshel => seq!['T', 'S', 'H', 'E', 'L', ' ', '/', ' '],
        Keyword::Shell => seq!['S', 'H', 'E', 'L', 'L', ' ', '/', ' '],
        Keyword::Shel6 => seq!['S', 'H', 'E', 'L', '6', ' ', '/', ' '],
        Keyword::Shel8 => seq!['S', 'H', 'E', 'L', '8', ' ', '/', ' '],
        Keyword::Membr => seq!['M', 'E', 'M', 'B', 'R', ' ', '/', ' '],
        Keyword::Beam => seq!['B', 'E', 'A', 'M', ' ', ' ', '/', ' '],
        Keyword::Sprgbm => seq!['S', 'P', 'R', 'G', 'B', 'M', '/', ' '],
        Keyword::Bar => seq!['B', 'A', 'R', ' ', ' ', ' ', '/', ' '],
        Keyword::Spring => seq!['S', 'P', 'R', 'I', 'N', 'G', '/', ' '],
        Keyword::Joint => seq!['J', 'O', 'I', 'N', 'T', ' ', '/', ' '],
        Keyword::Kjoin => seq!['K', 'J', 'O', 'I', 'N', ' ', '/', ' '],
        Keyword::Mtojnt => seq!['M', 'T', 'O', 'J', 'N', 'T', '/', ' '],
        Keyword::Sphel => seq!['S', 'P', 'H', 'E', 'L', ' ', '/', ' '],
        Keyword::Sphelo => seq!['S', 'P', 'H', 'E', 'L', 'O', '/', ' '],
        Keyword::Gap => seq!['G', 'A', 'P', ' ', ' ', ' ', '/', ' '],
        Keyword::Impma => seq!['I', 'M', 'P', 'M', 'A', ' ', '/', ' '],
        Keyword::Elink => seq!['E', 'L', 'I', 'N', 'K', ' ', '/', ' '],
    }
}

/// Every card type, in the order in which lines are tested against them.
pub open spec fn all_keywords() -> Seq<Keyword> {
    seq![
        Keyword::Node, Keyword::Cnode, Keyword::Mass, Keyword::Nsmas, Keyword::Nsmas2, Keyword::Solid, Keyword::Hexa20, Keyword::Pent15,
        Keyword::Penta6, Keyword::Tetr10, Keyword::Tetr4, Keyword::Bshel, Keyword::Tshel, Keyword::Shell, Keyword::Shel6, Keyword::Shel8,
        Keyword::Membr, Keyword::Beam, Keyword::Sprgbm, Keyword::Bar, Keyword::Spring, Keyword::Joint, Keyword::Kjoin, Keyword::Mtojnt,
        Keyword::Sphel, Keyword::Sphelo, Keyword::Gap, Keyword::Impma, Keyword::Elink,
    ]
}
/// The pattern of card type `k`, as characters.
fn card_chars(k: Keyword) -> (r: [char; 8])
    ensures
        r@ == card_pattern(k),
{
    let r = match k {
        Keyword::Node => ['N', 'O', 'D', 'E', ' ', ' ', '/', ' '],
        Keyword::Cnode => ['C', 'N', 'O', 'D', 'E', ' ', '/', ' '],
        Keyword::Mass => ['M', 'A', 'S', 'S', ' ', ' ', '/', ' '],
        Keyword::Nsmas => ['N', 'S', 'M', 'A', 'S', ' ', '/', ' '],
        Keyword::Nsmas2 => ['N', 'S', 'M', 'A', 'S', '2', '/', ' '],
        Keyword::Solid => ['S', 'O', 'L', 'I', 'D', ' ', '/', ' '],
        Keyword::Hexa20 => ['H', 'E', 'X', 'A', '2', '0', '/', ' '],
        Keyword::Pent15 => ['P', 'E', 'N', 'T', '1', '5', '/', ' '],
        Keyword::Penta6 => ['P', 'E', 'N', 'T', 'A', '6', '/', ' '],
        Keyword::Tetr10 => ['T', 'E', 'T', 'R', '1', '0', '/', ' '],
        Keyword::Tetr4 => ['T', 'E', 'T', 'R', '4', ' ', '/', ' '],
        Keyword::Bshel => ['B', 'S', 'H', 'E', 'L', ' ', '/', ' '],
        Keyword::Tshel => ['T', 'S', 'H', 'E', 'L', ' ', '/', ' '],
        Keyword::Shell => ['S', 'H', 'E', 'L', 'L', ' ', '/', ' '],
        Keyword::Shel6 => ['S', 'H', 'E', 'L', '6', ' ', '/', ' '],
        Keyword::Shel8 => ['S', 'H', 'E', 'L', '8', ' ', '/', ' '],
        Keyword::Membr => ['M', 'E', 'M', 'B', 'R', ' ', '/', ' '],
        Keyword::Beam => ['B', 'E', 'A', 'M', ' ', ' ', '/', ' '],
        Keyword::Sprgbm => ['S', 'P', 'R', 'G', 'B', 'M', '/', ' '],
        Keyword::Bar => ['B', 'A', 'R', ' ', ' ', ' ', '/', ' '],
        Keyword::Spring => ['S', 'P', 'R', 'I', 'N', 'G', '/', ' '],
        Keyword::Joint => ['J', 'O', 'I', 'N', 'T', ' ', '/', ' '],
        Keyword::Kjoin => ['K', 'J', 'O', 'I', 'N', ' ', '/', ' '],
        Keyword::Mtojnt => ['M', 'T', 'O', 'J', 'N', 'T', '/', ' '],
        Keyword::Sphel => ['S', 'P', 'H', 'E', 'L', ' ', '/', ' '],
        Keyword::Sphelo => ['S', 'P', 'H', 'E', 'L', 'O', '/', ' '],
        Keyword::Gap => ['G', 'A', 'P', ' ', ' ', ' ', '/', ' '],
        Keyword::Impma => ['I', 'M', 'P', 'M', 'A', ' ', '/', ' '],
        Keyword::Elink => ['E', 'L', 'I', 'N', 'K', ' ', '/', ' '],
    };
    assert(r@ =~= card_pattern(k));
    r
}

/// Whether byte `b` encodes the character `c`.
fn byte_is(b: u8, c: char) -> (r: bool)
    ensures
        r == (b as u32 == c as u32),
{
    b as u32 == c as u32
}

/// Whether the bytes of a line open with the pattern of card type `k`.
pub open spec fn opens_with(b: Seq<u8>, k: Keyword) -> bool {
    b.len() >= 8 && forall|i: int| 0 <= i < 8 ==> b[i] as u32 == #[trigger] card_pattern(k)[i] as u32
}

/// The first card type, from position `i` of `all_keywords()` on, whose
/// pattern opens `b`.
pub open spec fn first_match(b: Seq<u8>, i: nat) -> Option<Keyword>
    decreases all_keywords().len() - i,
{
    if i >= all_keywords().len() {
        None
    } else if opens_with(b, all_keywords()[i as int]) {
        Some(all_keywords()[i as int])
    } else {
        first_match(b, i + 1)
    }
}

/// The card type that the bytes of a line belong to, if any.
pub open spec fn keyword_of(b: Seq<u8>) -> Option<Keyword> {
    first_match(b, 0)
}

/// A line shorter than eight bytes opens no card.
proof fn lemma_short_line_has_no_card(b: Seq<u8>, i: nat)
    requires
        b.len() < 8,
    ensures
        first_match(b, i) is None,
    decreases all_keywords().len() - i,
{
    if i < all_keywords().len() {
        lemma_short_line_has_no_card(b, i + 1);
    }
}

/// What a line is, by its first bytes.
#[derive(Copy, Clone, PartialEq, Eq, Debug, Structural)]
pub enum LineKind {
    /// A line that opens a card of this type.
    Card(Keyword),
    /// A comment line: it starts with `#` or `$`.
    Comment,
    /// Anything else.
    Unrecognized,
}

/// Whether the bytes of a line mark it as a comment.
pub open spec fn is_comment(b: Seq<u8>) -> bool {
    b.len() > 0 && (b[0] as u32 == '#' as u32 || b[0] as u32 == '$' as u32)
}

/// The classification of a line from its bytes.
pub open spec fn kind_of(b: Seq<u8>) -> LineKind {
    match keyword_of(b) {
        Some(k) => LineKind::Card(k),
        None => if is_comment(b) {
            LineKind::Comment
        } else {
            LineKind::Unrecognized
        },
    }
}

impl Keyword {
    /// Every card type, in the order of `all_keywords()`.
    fn all() -> (r: Vec<Keyword>)
        ensures
            r@ == all_keywords(),
    {
        let v = vec![
            Keyword::Node, Keyword::Cnode, Keyword::Mass, Keyword::Nsmas, Keyword::Nsmas2, Keyword::Solid, Keyword::Hexa20, Keyword::Pent15,
            Keyword::Penta6, Keyword::Tetr10, Keyword::Tetr4, Keyword::Bshel, Keyword::Tshel, Keyword::Shell, Keyword::Shel6, Keyword::Shel8,
            Keyword::Membr, Keyword::Beam, Keyword::Sprgbm, Keyword::Bar, Keyword::Spring, Keyword::Joint, Keyword::Kjoin, Keyword::Mtojnt,
            Keyword::Sphel, Keyword::Sphelo, Keyword::Gap, Keyword::Impma, Keyword::Elink,
        ];
        assert(v@ =~= all_keywords());
        v
    }

    /// Parse a line to determine if it starts with the keyword of a card.
    pub fn parse(s: &str) -> (r: Option<Keyword>)
        ensures
            r == keyword_of(s.spec_bytes()),
    {
        let b = s.as_bytes();
        if b.len() < 8 {
            proof {
                lemma_short_line_has_no_card(b@, 0);
            }
            return None;
        }
        let all = Keyword::all();
        let mut i: usize = 0;
        while i < all.len()
            invariant
                b@ == s.spec_bytes(),
                b@.len() >= 8,
                all@ == all_keywords(),
                i <= all@.len(),
                first_match(b@, 0) == first_match(b@, i as nat),
            decreases all@.len() - i,
        {
            if opens_with_card(b, all[i]) {
                return Some(all[i]);
            }
            i = i + 1;
        }
        None
    }
}

/// Whether the bytes `b` open with the pattern of card type `k`.
fn opens_with_card(b: &[u8], k: Keyword) -> (r: bool)
    requires
        b@.len() >= 8,
    ensures
        r == opens_with(b@, k),
{
    let p = card_chars(k);
    let mut i: usize = 0;
    while i < 8
        invariant
            i <= 8,
            b@.len() >= 8,
            p@ == card_pattern(k),
            forall|j: int| 0 <= j < i ==> b@[j] as u32 == #[trigger] card_pattern(k)[j] as u32,
        decreases 8 - i,
    {
        if !byte_is(b[i], p[i]) {
            return false;
        }
        i = i + 1;
    }
    true
}

/// Classify a line as a card of some type, a comment, or unrecognized.
pub fn classify(line: &str) -> (r: LineKind)
    ensures
        r == kind_of(line.spec_bytes()),
{
    match Keyword::parse(line) {
        Some(k) => LineKind::Card(k),
        None => {
            let b = line.as_bytes();
            if b.len() > 0 && (byte_is(b[0], '#') || byte_is(b[0], '$')) {
                LineKind::Comment
            } else {
                LineKind::Unrecognized
            }
        },
    }
}

} // verus!
