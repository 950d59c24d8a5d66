//! Palette construction and validation. Data in, data out: the JSON text of a
//! palette is turned into a [`RawPalette`] by the frontend (serde), and
//! [`palette_from_raw`] parses each `"#RRGGBB"` string and checks the
//! palette's invariants in a fixed, deterministic order. Duplicate detection
//! is an ordered scan; errors name a single offending `code`.

use vstd::prelude::*;
use crate::error::BeadError;

verus! {

/// A single bead color: a stable `code`, a human-readable `name`, and an
/// `rgb` triple already parsed from `"#RRGGBB"`.
#[derive(Debug, Clone, PartialEq)]
pub struct PaletteColor {
    pub code: String,
    pub name: String,
    pub rgb: [u8; 3],
}

/// A bead palette: a free-form `brand` label and an ordered list of colors.
/// Color order matches the source JSON; palette index `i` is `colors[i]`.
#[derive(Debug, Clone, PartialEq)]
pub struct Palette {
    pub brand: String,
    pub colors: Vec<PaletteColor>,
}

/// One color as written in the palette JSON, `rgb` still a string.
#[derive(Debug, Clone, PartialEq)]
pub struct RawColor {
    pub code: String,
    pub name: String,
    pub rgb: String,
}

/// The palette JSON's shape: a brand and colors, `rgb` fields unparsed.
#[derive(Debug, Clone, PartialEq)]
pub struct RawPalette {
    pub brand: String,
    pub colors: Vec<RawColor>,
}

impl View for PaletteColor {
    type V = (Seq<char>, Seq<char>, [u8; 3]);

    open spec fn view(&self) -> (Seq<char>, Seq<char>, [u8; 3]) {
        (self.code@, self.name@, self.rgb)
    }
}

impl View for Palette {
    type V = (Seq<char>, Seq<(Seq<char>, Seq<char>, [u8; 3])>);

    open spec fn view(&self) -> Self::V {
        (self.brand@, self.colors@.map_values(|c: PaletteColor| c@))
    }
}

impl View for RawColor {
    type V = (Seq<char>, Seq<char>, Seq<char>);

    open spec fn view(&self) -> (Seq<char>, Seq<char>, Seq<char>) {
        (self.code@, self.name@, self.rgb@)
    }
}

/// The codes of a palette's colors, in palette order.
pub open spec fn codes_of(colors: Seq<(Seq<char>, Seq<char>, [u8; 3])>) -> Seq<Seq<char>> {
    colors.map_values(|c: (Seq<char>, Seq<char>, [u8; 3])| c.0)
}

/// `codes[j]` already occurs at a lower index.
pub open spec fn repeats_earlier(codes: Seq<Seq<char>>, j: int) -> bool {
    exists|i: int| 0 <= i < j && codes[i] == codes[j]
}

/// All codes are distinct.
pub open spec fn codes_unique(codes: Seq<Seq<char>>) -> bool {
    forall|i: int, j: int| 0 <= i < j < codes.len() ==> codes[i] != codes[j]
}

/// `j` is the first position whose code repeats an earlier one.
pub open spec fn is_first_repeat(codes: Seq<Seq<char>>, j: int) -> bool {
    &&& 0 <= j < codes.len()
    &&& repeats_earlier(codes, j)
    &&& forall|k: int| 0 <= k < j ==> !repeats_earlier(codes, k)
}

/// The reason reported for the duplicate `code`.
pub open spec fn duplicate_reason(code: Seq<char>) -> Seq<char> {
    "duplicate color code "@ + debug_quoted(code)
}

/// What `validate_palette` reports for a palette's colors: `None` when they
/// are non-empty with unique codes, otherwise the reason of the first
/// violation (emptiness first, then the first repeated code).
pub open spec fn validation_failure(colors: Seq<(Seq<char>, Seq<char>, [u8; 3])>) -> Option<Seq<char>> {
    let codes = codes_of(colors);
    if colors.len() == 0 {
        Some("palette has no colors"@)
    } else if codes_unique(codes) {
        None
    } else {
        Some(duplicate_reason(codes[choose|j: int| is_first_repeat(codes, j)]))
    }
}

/// Every color's `rgb` before position `n` is a strict `"#RRGGBB"`.
pub open spec fn hex_ok_before(colors: Seq<(Seq<char>, Seq<char>, Seq<char>)>, n: int) -> bool {
    forall|i: int| 0 <= i < n ==> is_strict_hex(#[trigger] colors[i].2)
}

/// `i` is the first color whose `rgb` is not a strict `"#RRGGBB"`.
pub open spec fn is_first_bad_hex(colors: Seq<(Seq<char>, Seq<char>, Seq<char>)>, i: int) -> bool {
    0 <= i < colors.len() && !is_strict_hex(colors[i].2) && hex_ok_before(colors, i)
}

/// The parsed form of a raw color whose `rgb` is a strict `"#RRGGBB"`.
pub open spec fn parsed_color(c: (Seq<char>, Seq<char>, Seq<char>)) -> (Seq<char>, Seq<char>, [u8; 3]) {
    (c.0, c.1, hex_rgb(c.2))
}

/// The outcome of building a palette from its raw JSON shape: the checks run
/// in a fixed order (non-empty colors, then each `rgb` in color order, then
/// unique codes) and the first failing check gives the reason.
pub open spec fn raw_palette_outcome(raw: (Seq<char>, Seq<(Seq<char>, Seq<char>, Seq<char>)>))
    -> Result<(Seq<char>, Seq<(Seq<char>, Seq<char>, [u8; 3])>), Seq<char>>
{
    let colors = raw.1;
    if colors.len() == 0 {
        Err("palette has no colors"@)
    } else if !hex_ok_before(colors, colors.len() as int) {
        let i = choose|i: int| is_first_bad_hex(colors, i);
        Err("color "@ + debug_quoted(colors[i].0) + ": "@ + hex_error_reason(colors[i].2))
    } else {
        let parsed = colors.map_values(|c: (Seq<char>, Seq<char>, Seq<char>)| parsed_color(c));
        match validation_failure(parsed) {
            Some(reason) => Err(reason),
            None => Ok((raw.0, parsed)),
        }
    }
}

/// Re-check the structural invariants of an already-constructed palette:
/// `colors` is non-empty and all `code` values are unique. The first repeated
/// code (in color order) is the one named in the error.
pub fn validate_palette(palette: &Palette) -> (r: Result<(), BeadError>)
    ensures
        match validation_failure(palette@.1) {
            None => r is Ok,
            Some(reason) => r matches Err(BeadError::InvalidPalette { reason: e }) && e@ == reason,
        },
{
    let ghost colors = palette@.1;
    let ghost codes = codes_of(colors);
    let n = palette.colors.len();
    if n == 0 {
        return Err(BeadError::InvalidPalette { reason: String::from_str("palette has no colors") });
    }
    let mut j: usize = 0;
    while j < n
        invariant
            n == palette.colors@.len(),
            colors == palette@.1,
            codes == codes_of(colors),
            codes.len() == n,
            0 <= j <= n,
            forall|k: int| 0 <= k < j ==> !repeats_earlier(codes, k),
        decreases n - j,
    {
        let mut i: usize = 0;
        while i < j
            invariant
                n == palette.colors@.len(),
                colors == palette@.1,
                codes == codes_of(colors),
                codes.len() == n,
                0 <= i <= j < n,
                forall|k: int| 0 <= k < j ==> !repeats_earlier(codes, k),
                forall|k: int| 0 <= k < i ==> codes[k] != codes[j as int],
            decreases j - i,
        {
            assert(codes[i as int] == palette.colors@[i as int].code@);
            assert(codes[j as int] == palette.colors@[j as int].code@);
            if palette.colors[i].code == palette.colors[j].code {
                assert(repeats_earlier(codes, j as int));
                assert(is_first_repeat(codes, j as int));
                proof {
                    lemma_first_repeat_unique(codes, j as int);
                }
                let mut reason = String::from_str("duplicate color code ");
                let q = debug_string(palette.colors[j].code.as_str());
                reason.append(q.as_str());
                return Err(BeadError::InvalidPalette { reason });
            }
            i += 1;
        }
        assert(!repeats_earlier(codes, j as int));
        j += 1;
    }
    assert(codes_unique(codes)) by {
        assert forall|a: int, b: int| 0 <= a < b < codes.len() implies codes[a] != codes[b] by {
            if codes[a] == codes[b] {
                assert(repeats_earlier(codes, b));
            }
        }
    }
    Ok(())
}

/// The first repeated position is unique, and a palette with one is not
/// code-unique.
proof fn lemma_first_repeat_unique(codes: Seq<Seq<char>>, j: int)
    requires
        is_first_repeat(codes, j),
    ensures
        !codes_unique(codes),
        forall|k: int| #[trigger] is_first_repeat(codes, k) ==> k == j,
{
    let i = choose|i: int| 0 <= i < j && codes[i] == codes[j];
    assert(codes[i] == codes[j]);
    assert forall|k: int| #[trigger] is_first_repeat(codes, k) implies k == j by {
        if k < j {
            assert(!repeats_earlier(codes, k));
        } else if k > j {
            assert(!repeats_earlier(codes, j));
        }
    }
}

/// Rust's `Debug` rendering of a string (quoted and escaped), as used in
/// error reasons.
pub uninterp spec fn debug_quoted(s: Seq<char>) -> Seq<char>;

/// `format!("{:?}", s)`: the quoted, escaped `Debug` text of `s`.
#[verifier::external_body]
fn debug_string(s: &str) -> (r: String)
    ensures
        r@ == debug_quoted(s@),
{
    format!("{:?}", s)
}

/// An ASCII hexadecimal digit (either case).
pub open spec fn is_hex_digit(c: char) -> bool {
    ('0' <= c && c <= '9') || ('a' <= c && c <= 'f') || ('A' <= c && c <= 'F')
}

/// The value of an ASCII hexadecimal digit.
pub open spec fn hex_value(c: char) -> int {
    if '0' <= c && c <= '9' {
        c as int - '0' as int
    } else if 'a' <= c && c <= 'f' {
        c as int - 'a' as int + 10
    } else {
        c as int - 'A' as int + 10
    }
}

/// `s` is `'#'` followed by something.
pub open spec fn has_hash(s: Seq<char>) -> bool {
    s.len() > 0 && s[0] == '#'
}

/// `s` is a strict `"#RRGGBB"`: `'#'` then exactly 6 ASCII hex digits.
pub open spec fn is_strict_hex(s: Seq<char>) -> bool {
    &&& has_hash(s)
    &&& s.len() == 7
    &&& forall|i: int| 1 <= i < 7 ==> is_hex_digit(#[trigger] s[i])
}

/// The color a strict `"#RRGGBB"` denotes.
pub open spec fn hex_rgb(s: Seq<char>) -> [u8; 3] {
    [
        (hex_value(s[1]) * 16 + hex_value(s[2])) as u8,
        (hex_value(s[3]) * 16 + hex_value(s[4])) as u8,
        (hex_value(s[5]) * 16 + hex_value(s[6])) as u8,
    ]
}

/// The reason `parse_hex` gives for a string that is not a strict `"#RRGGBB"`.
pub open spec fn hex_error_reason(s: Seq<char>) -> Seq<char> {
    if !has_hash(s) {
        "rgb "@ + debug_quoted(s) + " must start with '#'"@
    } else {
        "rgb "@ + debug_quoted(s) + " must be exactly 6 hex digits after '#'"@
    }
}

fn hex_digit_value(c: char) -> (v: u8)
    requires
        is_hex_digit(c),
    ensures
        v as int == hex_value(c),
        v < 16,
{
    if '0' <= c && c <= '9' {
        (c as u32 - '0' as u32) as u8
    } else if 'a' <= c && c <= 'f' {
        (c as u32 - 'a' as u32 + 10) as u8
    } else {
        (c as u32 - 'A' as u32 + 10) as u8
    }
}

fn char_is_hex_digit(c: char) -> (b: bool)
    ensures
        b == is_hex_digit(c),
{
    ('0' <= c && c <= '9') || ('a' <= c && c <= 'f') || ('A' <= c && c <= 'F')
}

/// Every ASCII decimal digit and every letter `a`–`f` / `A`–`F` is a hex
/// digit, with value `c - '0'` (`'0'` is code 48), `c - 'a' + 10` (`'a'` is
/// 97) and `c - 'A' + 10` (`'A'` is 65) respectively; nothing else is.
pub proof fn lemma_hex_digit_chars(c: char)
    ensures
        48 <= (c as int) <= 57 ==> is_hex_digit(c) && hex_value(c) == c as int - 48,
        97 <= (c as int) <= 102 ==> is_hex_digit(c) && hex_value(c) == c as int - 87,
        65 <= (c as int) <= 70 ==> is_hex_digit(c) && hex_value(c) == c as int - 55,
        !(48 <= (c as int) <= 57 || 97 <= (c as int) <= 102 || 65 <= (c as int) <= 70) ==> !is_hex_digit(c),
{
}

/// The value of an ASCII hex digit, by code ranges.
pub open spec fn ascii_hex_value(c: char) -> int {
    if 48 <= (c as int) <= 57 {
        c as int - 48
    } else if 97 <= (c as int) <= 102 {
        c as int - 87
    } else {
        c as int - 55
    }
}

/// `c` is an ASCII hex digit, by code ranges.
pub open spec fn is_ascii_hex_char(c: char) -> bool {
    48 <= (c as int) <= 57 || 97 <= (c as int) <= 102 || 65 <= (c as int) <= 70
}

/// Any `'#'` followed by exactly six ASCII hex digits (either case) is a
/// strict `"#RRGGBB"`, and it denotes the channels `16·hi + lo` of its digit
/// pairs in order; no other string is a strict `"#RRGGBB"`.
pub proof fn lemma_hex_strings(s: Seq<char>)
    ensures
        (s.len() == 7 && s[0] == '#' && forall|i: int| 1 <= i < 7 ==> is_ascii_hex_char(#[trigger] s[i]))
            <==> is_strict_hex(s),
        is_strict_hex(s) ==> hex_rgb(s) == [
            (16 * ascii_hex_value(s[1]) + ascii_hex_value(s[2])) as u8,
            (16 * ascii_hex_value(s[3]) + ascii_hex_value(s[4])) as u8,
            (16 * ascii_hex_value(s[5]) + ascii_hex_value(s[6])) as u8,
        ],
        is_strict_hex(s) ==> forall|i: int| 1 <= i < 7 ==> 0 <= #[trigger] ascii_hex_value(s[i]) < 16,
{
    assert forall|i: int| 0 <= i < s.len() implies (is_ascii_hex_char(#[trigger] s[i]) <==> is_hex_digit(s[i])) && (is_hex_digit(s[i]) ==> hex_value(s[i]) == ascii_hex_value(s[i]) && 0 <= ascii_hex_value(s[i]) < 16) by {
        lemma_hex_digit_chars(s[i]);
    }
}

/// Parse a strict `"#RRGGBB"` hex string (case-insensitive digits) into an
/// RGB triple. A missing `'#'`, the `#RGB` shorthand, any other length, and
/// any non-hex character (signs, non-ASCII) are rejected with an
/// `InvalidPalette` whose reason quotes `s`.
pub fn parse_hex(s: &str) -> (r: Result<[u8; 3], BeadError>)
    ensures
        is_strict_hex(s@) ==> r == Ok::<[u8; 3], BeadError>(hex_rgb(s@)),
        !is_strict_hex(s@) ==> (r matches Err(BeadError::InvalidPalette { reason })
            && reason@ == hex_error_reason(s@)),
{
    let len = s.unicode_len();
    if len == 0 || s.get_char(0) != '#' {
        let mut reason = String::from_str("rgb ");
        let q = debug_string(s);
        reason.append(q.as_str());
        reason.append(" must start with '#'");
        return Err(BeadError::InvalidPalette { reason });
    }
    let mut all_hex = len == 7;
    if all_hex {
        let mut i: usize = 1;
        while i < 7
            invariant
                len == 7,
                len == s@.len(),
                1 <= i <= 7,
                all_hex == (forall|j: int| 1 <= j < i ==> is_hex_digit(#[trigger] s@[j])),
            decreases 7 - i,
        {
            if !char_is_hex_digit(s.get_char(i)) {
                all_hex = false;
            }
            i += 1;
        }
    }
    if !all_hex {
        let mut reason = String::from_str("rgb ");
        let q = debug_string(s);
        reason.append(q.as_str());
        reason.append(" must be exactly 6 hex digits after '#'");
        return Err(BeadError::InvalidPalette { reason });
    }
    let mut rgb = [0u8; 3];
    let mut k: usize = 0;
    while k < 3
        invariant
            is_strict_hex(s@),
            s@.len() == 7,
            0 <= k <= 3,
            forall|j: int| 0 <= j < k ==> rgb[j] == #[trigger] hex_rgb(s@)[j],
        decreases 3 - k,
    {
        let hi = hex_digit_value(s.get_char(1 + 2 * k));
        let lo = hex_digit_value(s.get_char(2 + 2 * k));
        assert(s@[1 + 2 * k as int] == s@[1 + 2 * k]);
        rgb[k] = hi * 16 + lo;
        k += 1;
    }
    assert(rgb =~= hex_rgb(s@));
    Ok(rgb)
}

} // verus!

verus! {

/// The view of a raw palette.
pub open spec fn raw_view(raw: &RawPalette) -> (Seq<char>, Seq<(Seq<char>, Seq<char>, Seq<char>)>) {
    (raw.brand@, raw.colors@.map_values(|c: RawColor| c@))
}

proof fn lemma_first_bad_hex_unique(colors: Seq<(Seq<char>, Seq<char>, Seq<char>)>, i: int)
    requires
        is_first_bad_hex(colors, i),
    ensures
        forall|k: int| #[trigger] is_first_bad_hex(colors, k) ==> k == i,
{
    assert forall|k: int| #[trigger] is_first_bad_hex(colors, k) implies k == i by {
        if k < i {
            assert(is_strict_hex(colors[k].2));
        } else if k > i {
            assert(is_strict_hex(colors[i].2));
        }
    }
}

/// Build a palette from its raw JSON shape, validating fail-fast in a fixed
/// order so the reported error is deterministic:
/// 1. `colors` is non-empty,
/// 2. each `rgb` is a strict `"#RRGGBB"` (in color order; the first bad one is
///    reported, prefixed with its color's quoted `code`),
/// 3. `code` values are unique (the first repeated code is reported).
///
/// On success the palette keeps the brand and the colors in order, each `rgb`
/// parsed.
pub fn palette_from_raw(raw: RawPalette) -> (r: Result<Palette, BeadError>)
    ensures
        match raw_palette_outcome(raw_view(&raw)) {
            Ok(v) => r matches Ok(p) && p@ == v,
            Err(reason) => r matches Err(BeadError::InvalidPalette { reason: e }) && e@ == reason,
        },
{
    let ghost rv = raw_view(&raw);
    let n = raw.colors.len();
    if n == 0 {
        return Err(BeadError::InvalidPalette { reason: String::from_str("palette has no colors") });
    }
    let mut colors: Vec<PaletteColor> = Vec::with_capacity(n);
    let mut i: usize = 0;
    while i < n
        invariant
            rv == raw_view(&raw),
            n == raw.colors@.len(),
            rv.1.len() == n,
            0 <= i <= n,
            hex_ok_before(rv.1, i as int),
            colors@.len() == i,
            forall|k: int| 0 <= k < i ==> #[trigger] colors@[k]@ == parsed_color(rv.1[k]),
        decreases n - i,
    {
        assert(rv.1[i as int] == raw.colors@[i as int]@);
        let parsed = parse_hex(raw.colors[i].rgb.as_str());
        match parsed {
            Ok(rgb) => {
                colors.push(PaletteColor {
                    code: raw.colors[i].code.clone(),
                    name: raw.colors[i].name.clone(),
                    rgb,
                });
            },
            Err(e) => {
                assert(is_first_bad_hex(rv.1, i as int));
                proof {
                    lemma_first_bad_hex_unique(rv.1, i as int);
                }
                let inner = match e {
                    BeadError::InvalidPalette { reason } => reason,
                    _ => String::new(),
                };
                let mut reason = String::from_str("color ");
                let q = debug_string(raw.colors[i].code.as_str());
                reason.append(q.as_str());
                reason.append(": ");
                reason.append(inner.as_str());
                return Err(BeadError::InvalidPalette { reason });
            },
        }
        i += 1;
    }
    let ghost parsed = rv.1.map_values(|c: (Seq<char>, Seq<char>, Seq<char>)| parsed_color(c));
    let palette = Palette { brand: raw.brand, colors };
    assert(palette@.1 =~= parsed);
    match validate_palette(&palette) {
        Ok(()) => Ok(palette),
        Err(e) => Err(e),
    }
}

} // verus!
