//! Bed-extension translator.
//!
//! Rewrites a G-code program so that a Y move beyond the gantry's travel is
//! split in two: the gantry goes to its limit and the bed axis carries the
//! rest. Absolute or relative mode and the current Y are tracked across the
//! program; every other line passes through.

use vstd::prelude::*;
use crate::decimal::{
    decimal_of, fixed4, frac_digits, int_digits, is_decimal, is_digit, lemma_fixed4_chars,
    lemma_fixed4_reads_back, parse_decimal, push_fixed4, unsigned_part, Decimal, MAX_UNITS,
};
use crate::text::{
    extend_chars, is_space, is_space_char, slice_chars, slice_views, string_views, to_chars,
    to_text, trim, trim_chars,
};

verus! {

/// Default gantry Y limit, in units: 609.6 mm (24 inches).
pub const DEFAULT_GANTRY_Y_LIMIT_UNITS: i64 = 6_096_000;

/// Configuration of the translator.
#[derive(Clone, Copy, Debug)]
pub struct MotionConfig {
    /// Gantry Y travel limit in mm; Y moves beyond it are split.
    pub gantry_y_limit_mm: Decimal,
    /// G-code letter of the bed axis.
    pub bed_axis: char,
}

impl Default for MotionConfig {
    fn default() -> (c: Self)
        ensures
            c.gantry_y_limit_mm.units == DEFAULT_GANTRY_Y_LIMIT_UNITS,
            c.bed_axis == 'A',
    {
        MotionConfig {
            gantry_y_limit_mm: Decimal { units: DEFAULT_GANTRY_Y_LIMIT_UNITS },
            bed_axis: 'A',
        }
    }
}

/// A character that may stand in a number after an axis letter.
pub open spec fn is_numeric(c: char) -> bool {
    is_digit(c) || c == '.' || c == '-'
}

fn is_numeric_char(c: char) -> (b: bool)
    ensures
        b == is_numeric(c),
{
    let n: u32 = c as u32;
    (48 <= n && n <= 57) || c == '.' || c == '-'
}

/// The code of `c`, lower-case ASCII letters folded onto upper-case ones.
pub open spec fn fold_case(c: char) -> u32 {
    if 97 <= c as u32 <= 122 {
        (c as u32 - 32) as u32
    } else {
        c as u32
    }
}

/// Whether `c` is the letter `axis`, in either case.
pub open spec fn same_letter(c: char, axis: char) -> bool {
    fold_case(c) == fold_case(axis)
}

fn fold_case_char(c: char) -> (n: u32)
    ensures
        n == fold_case(c),
{
    let n: u32 = c as u32;
    if 97 <= n && n <= 122 {
        n - 32
    } else {
        n
    }
}

/// The index of the first occurrence of the letter `axis` in `s`, or the
/// length of `s` where there is none.
pub open spec fn letter_index(s: Seq<char>, axis: char) -> int
    decreases s.len(),
{
    if s.len() == 0 {
        0
    } else if same_letter(s[0], axis) {
        0
    } else {
        1 + letter_index(s.drop_first(), axis)
    }
}

proof fn lemma_letter_index_unique(s: Seq<char>, axis: char, i: int)
    requires
        0 <= i <= s.len(),
        i < s.len() ==> same_letter(s[i], axis),
        forall|j: int| 0 <= j < i ==> !same_letter(s[j], axis),
    ensures
        letter_index(s, axis) == i,
    decreases s.len(),
{
    if s.len() > 0 && i > 0 {
        assert(!same_letter(s[0], axis));
        assert forall|j: int| 0 <= j < i - 1 implies !same_letter(s.drop_first()[j], axis) by {
            assert(s.drop_first()[j] == s[j + 1]);
        }
        lemma_letter_index_unique(s.drop_first(), axis, i - 1);
    }
}

/// The longest run of numeric characters at the start of `s`.
pub open spec fn numeric_prefix(s: Seq<char>) -> Seq<char>
    decreases s.len(),
{
    if s.len() > 0 && is_numeric(s[0]) {
        seq![s[0]] + numeric_prefix(s.drop_first())
    } else {
        Seq::empty()
    }
}

proof fn lemma_numeric_prefix(s: Seq<char>, k: int)
    requires
        0 <= k <= s.len(),
        forall|j: int| 0 <= j < k ==> is_numeric(s[j]),
        k < s.len() ==> !is_numeric(s[k]),
    ensures
        numeric_prefix(s) == s.subrange(0, k),
    decreases s.len(),
{
    if k > 0 {
        assert(is_numeric(s[0]));
        assert forall|j: int| 0 <= j < k - 1 implies is_numeric(s.drop_first()[j]) by {
            assert(s.drop_first()[j] == s[j + 1]);
        }
        lemma_numeric_prefix(s.drop_first(), k - 1);
        assert(seq![s[0]] + s.drop_first().subrange(0, k - 1) =~= s.subrange(0, k));
    } else {
        assert(s.subrange(0, 0) =~= Seq::<char>::empty());
    }
}

/// The number after the first occurrence of the letter `axis`: the numeric
/// run that follows the letter, read as a decimal. `None` where the letter
/// does not occur or the run is no decimal.
pub open spec fn axis_value(s: Seq<char>, axis: char) -> Option<Decimal> {
    let i = letter_index(s, axis);
    if i < s.len() {
        decimal_of(numeric_prefix(s.subrange(i + 1, s.len() as int)))
    } else {
        None
    }
}

/// Reads the number after the first occurrence of `axis` in `v`.
pub fn axis_value_chars(v: &Vec<char>, axis: char) -> (r: Option<Decimal>)
    ensures
        r == axis_value(v@, axis),
        r is Some ==> -MAX_UNITS <= r->0.units <= MAX_UNITS,
{
    let n = v.len();
    let want = fold_case_char(axis);
    let mut i: usize = 0;
    while i < n && fold_case_char(v[i]) != want
        invariant
            i <= n == v.len(),
            want == fold_case(axis),
            forall|j: int| 0 <= j < i ==> !same_letter(v@[j], axis),
        decreases n - i,
    {
        i += 1;
    }
    proof {
        lemma_letter_index_unique(v@, axis, i as int);
    }
    if i >= n {
        return None;
    }
    let start = i + 1;
    let mut end: usize = start;
    while end < n && is_numeric_char(v[end])
        invariant
            start <= end <= n == v.len(),
            forall|j: int| start <= j < end ==> is_numeric(v@[j]),
        decreases n - end,
    {
        end += 1;
    }
    let run = slice_chars(v, start, end);
    proof {
        let rest = v@.subrange(start as int, n as int);
        lemma_numeric_prefix(rest, end - start);
        assert(rest.subrange(0, end - start) =~= run@);
    }
    parse_decimal(&run)
}

/// Extracts the number after an axis letter, as in `Y10.5` or `y-2.5`.
pub fn parse_axis_value(line: &str, axis: char) -> (r: Option<Decimal>)
    ensures
        r == axis_value(line@, axis),
{
    let v = to_chars(line);
    axis_value_chars(&v, axis)
}

/// What may follow `G0` or `G1` for the word to be a move: white space, or
/// one of the letters X, Y, Z, F, A in either case.
pub open spec fn follows_move(c: char) -> bool {
    is_space(c) || c == 'X' || c == 'x' || c == 'Y' || c == 'y' || c == 'Z' || c == 'z' || c
        == 'F' || c == 'f' || c == 'A' || c == 'a'
}

/// Whether a move word `G0` or `G1` stands at index `i` of `t`.
pub open spec fn move_at(t: Seq<char>, i: int) -> bool {
    &&& 0 <= i
    &&& i + 1 < t.len()
    &&& t[i] == 'G'
    &&& (t[i + 1] == '0' || t[i + 1] == '1')
    &&& (i + 2 == t.len() || follows_move(t[i + 2]))
}

/// Whether the trimmed line `t` is a rapid or linear move: no comment, and
/// holding `G0` or `G1` followed by the end of the line, white space or one
/// of the letters X, Y, Z, F, A.
pub open spec fn is_move(t: Seq<char>) -> bool {
    !(t.len() > 0 && t[0] == ';') && exists|i: int| move_at(t, i)
}

fn follows_move_char(c: char) -> (b: bool)
    ensures
        b == follows_move(c),
{
    is_space_char(c) || c == 'X' || c == 'x' || c == 'Y' || c == 'y' || c == 'Z' || c == 'z'
        || c == 'F' || c == 'f' || c == 'A' || c == 'a'
}

/// Decides `is_move` on a trimmed line.
pub fn is_move_chars(t: &Vec<char>) -> (b: bool)
    ensures
        b == is_move(t@),
{
    let n = t.len();
    if n > 0 && t[0] == ';' {
        return false;
    }
    let mut i: usize = 0;
    while i < n
        invariant
            i <= n == t.len(),
            !(n > 0 && t@[0] == ';'),
            forall|j: int| 0 <= j < i ==> !move_at(t@, j),
        decreases n - i,
    {
        if i + 1 < n && t[i] == 'G' && (t[i + 1] == '0' || t[i + 1] == '1') && (i + 2 == n
            || follows_move_char(t[i + 2])) {
            proof {
                assert(move_at(t@, i as int));
            }
            return true;
        }
        i += 1;
    }
    proof {
        assert forall|j: int| !move_at(t@, j) by {
            if 0 <= j && j + 1 < n {
                assert(j < i);
            }
        }
    }
    false
}

/// Returns true if the line is a rapid (G0) or linear (G1) move.
pub fn is_move_line(line: &str) -> (b: bool)
    ensures
        b == is_move(trim(line@)),
{
    let v = to_chars(line);
    let t = trim_chars(&v);
    is_move_chars(&t)
}

/// Whether the mode word `G9d` (with `G` in either case) stands at index `i`.
pub open spec fn mode_word_at(t: Seq<char>, i: int, d: char) -> bool {
    &&& 0 <= i
    &&& i + 2 < t.len()
    &&& (t[i] == 'G' || t[i] == 'g')
    &&& t[i + 1] == '9'
    &&& t[i + 2] == d
}

/// Whether `t` holds `G90` (for `d == '0'`) or `G91` (for `d == '1'`).
pub open spec fn has_mode_word(t: Seq<char>, d: char) -> bool {
    exists|i: int| mode_word_at(t, i, d)
}

fn has_mode_chars(t: &Vec<char>, d: char) -> (b: bool)
    ensures
        b == has_mode_word(t@, d),
{
    let n = t.len();
    let mut i: usize = 0;
    while i < n
        invariant
            i <= n == t.len(),
            forall|j: int| 0 <= j < i ==> !mode_word_at(t@, j, d),
        decreases n - i,
    {
        if i + 1 < n && i + 2 < n && (t[i] == 'G' || t[i] == 'g') && t[i + 1] == '9' && t[i + 2]
            == d {
            proof {
                assert(mode_word_at(t@, i as int, d));
            }
            return true;
        }
        i += 1;
    }
    proof {
        assert forall|j: int| !mode_word_at(t@, j, d) by {
            if 0 <= j && j + 2 < n {
                assert(j < i);
            }
        }
    }
    false
}

/// The line `s` with the number of every `Y` word replaced by `value`. A `Y`
/// or `y` counts as a word where a numeric character follows it; the letter
/// is kept, the numeric run after it is dropped and `value` written instead.
/// `skipping` says that the scan stands inside such a run.
pub open spec fn rewrite_y(s: Seq<char>, value: Seq<char>, skipping: bool) -> Seq<char>
    decreases s.len(),
{
    if s.len() == 0 {
        Seq::empty()
    } else if skipping && is_numeric(s[0]) {
        rewrite_y(s.drop_first(), value, true)
    } else if (s[0] == 'Y' || s[0] == 'y') && s.len() > 1 && is_numeric(s[1]) {
        seq![s[0]] + value + rewrite_y(s.drop_first(), value, true)
    } else {
        seq![s[0]] + rewrite_y(s.drop_first(), value, false)
    }
}

/// The line `s` with its Y words set to `value`.
pub open spec fn replace_y(s: Seq<char>, value: Seq<char>) -> Seq<char> {
    rewrite_y(s, value, false)
}

/// Replaces the number of every Y word of `v` by `value`.
pub fn replace_y_chars(v: &Vec<char>, value: &Vec<char>) -> (r: Vec<char>)
    ensures
        r@ == replace_y(v@, value@),
{
    let n = v.len();
    let mut out: Vec<char> = Vec::new();
    let mut i: usize = 0;
    let mut skipping = false;
    proof {
        assert(v@.subrange(0, n as int) =~= v@);
        assert(out@ + rewrite_y(v@, value@, false) =~= rewrite_y(v@, value@, false));
    }
    while i < n
        invariant
            i <= n == v.len(),
            out@ + rewrite_y(v@.subrange(i as int, n as int), value@, skipping) == replace_y(
                v@,
                value@,
            ),
        decreases n - i,
    {
        let c = v[i];
        let ghost rest = v@.subrange(i as int, n as int);
        let ghost before = out@;
        proof {
            assert(rest.drop_first() =~= v@.subrange(i + 1, n as int));
            assert(rest[0] == c);
            if i + 1 < n {
                assert(rest[1] == v@[i + 1]);
            }
        }
        if skipping && is_numeric_char(c) {
        } else if (c == 'Y' || c == 'y') && i + 1 < n && is_numeric_char(v[i + 1]) {
            out.push(c);
            extend_chars(&mut out, value);
            skipping = true;
            proof {
                assert(out@ + rewrite_y(rest.drop_first(), value@, true) =~= before + (seq![c]
                    + value@ + rewrite_y(rest.drop_first(), value@, true)));
            }
        } else {
            out.push(c);
            skipping = false;
            proof {
                assert(out@ + rewrite_y(rest.drop_first(), value@, false) =~= before + (seq![c]
                    + rewrite_y(rest.drop_first(), value@, false)));
            }
        }
        i += 1;
    }
    proof {
        assert(out@ + Seq::<char>::empty() =~= out@);
    }
    out
}

/// Replaces the Y value in a G-code line by `new_y`, written with four
/// fractional digits.
pub fn replace_y_in_line(line: &str, new_y: Decimal) -> (r: String)
    ensures
        r@ == replace_y(line@, fixed4(new_y.units as int)),
{
    let v = to_chars(line);
    let mut value: Vec<char> = Vec::new();
    push_fixed4(&mut value, new_y.units as i128);
    proof {
        assert(Seq::<char>::empty() + fixed4(new_y.units as int) =~= fixed4(new_y.units as int));
    }
    let out = replace_y_chars(&v, &value);
    to_text(&out)
}

/// The feed word ` F…` that ends a bed line, empty without a feed.
pub open spec fn feed_suffix(feed: Option<int>) -> Seq<char> {
    match feed {
        Some(f) => seq![' ', 'F'] + fixed4(f),
        None => Seq::empty(),
    }
}

/// The bed-axis move: `G1 `, the axis letter and the distance with four
/// fractional digits, then the feed word where a feed is given.
pub open spec fn bed_line(axis: char, distance: int, feed: Option<int>) -> Seq<char> {
    seq!['G', '1', ' ', axis] + fixed4(distance) + feed_suffix(feed)
}

/// The feed as a number of units, where there is one.
pub open spec fn feed_units(feed: Option<Decimal>) -> Option<int> {
    match feed {
        Some(f) => Some(f.units as int),
        None => None,
    }
}

/// Builds the bed-axis move for a distance in units.
pub fn bed_line_chars(axis: char, distance: i128, feed: Option<Decimal>) -> (r: Vec<char>)
    ensures
        r@ == bed_line(axis, distance as int, feed_units(feed)),
{
    let mut out: Vec<char> = Vec::new();
    out.push('G');
    out.push('1');
    out.push(' ');
    out.push(axis);
    let ghost head = out@;
    push_fixed4(&mut out, distance);
    let ghost body = out@;
    match feed {
        Some(f) => {
            out.push(' ');
            out.push('F');
            push_fixed4(&mut out, f.units as i128);
            proof {
                assert(out@ =~= body + (seq![' ', 'F'] + fixed4(f.units as int)));
            }
        },
        None => {
            proof {
                assert(out@ =~= body + Seq::<char>::empty());
            }
        },
    }
    proof {
        assert(head =~= seq!['G', '1', ' ', axis]);
    }
    out
}

/// Builds a bed-axis move line such as `G1 A90.4000 F300.0000`.
pub fn bed_axis_line(config: &MotionConfig, distance_mm: Decimal, feed: Option<Decimal>) -> (r:
    String)
    ensures
        r@ == bed_line(config.bed_axis, distance_mm.units as int, feed_units(feed)),
{
    let out = bed_line_chars(config.bed_axis, distance_mm.units as i128, feed);
    to_text(&out)
}

/// Modal state of the translator: the distance mode and the current Y in units.
pub struct Modal {
    pub absolute: bool,
    pub current_y: int,
}

/// The state in which every translation starts: absolute mode at Y 0.
pub open spec fn initial_modal() -> Modal {
    Modal { absolute: true, current_y: 0 }
}

/// The distance mode after the line `t`: `G91` makes it relative, else `G90`
/// makes it absolute, else it stays.
pub open spec fn next_absolute(t: Seq<char>, absolute: bool) -> bool {
    if has_mode_word(t, '1') {
        false
    } else if has_mode_word(t, '0') {
        true
    } else {
        absolute
    }
}

/// The Y at which a move ends.
pub open spec fn target_y(absolute: bool, current: int, y: int) -> int {
    if absolute {
        y
    } else {
        current + y
    }
}

/// The Y number written on the gantry's part of a split move: the limit in
/// absolute mode, the way to the limit in relative mode; `None` where the
/// gantry already stands at or beyond the limit.
pub open spec fn gantry_word(absolute: bool, current: int, limit: int) -> Option<int> {
    if limit - current > 0 {
        Some(
            if absolute {
                limit
            } else {
                limit - current
            },
        )
    } else {
        None
    }
}

/// The distance that the gantry's part of a split move travels.
pub open spec fn gantry_travel(absolute: bool, current: int, limit: int) -> int {
    match gantry_word(absolute, current, limit) {
        Some(w) => if absolute {
            w - current
        } else {
            w
        },
        None => 0,
    }
}

/// The distance written on the bed's part of a split move.
pub open spec fn bed_distance(target: int, limit: int) -> int {
    target - limit
}

/// The lines that stand for a move of the line `t` that ends beyond the limit.
pub open spec fn split_lines(
    t: Seq<char>,
    absolute: bool,
    current: int,
    target: int,
    limit: int,
    axis: char,
) -> Seq<Seq<char>> {
    let bed = bed_line(axis, bed_distance(target, limit), feed_units(axis_value(t, 'F')));
    match gantry_word(absolute, current, limit) {
        Some(w) => seq![replace_y(t, fixed4(w)), bed],
        None => seq![bed],
    }
}

/// Whether the trimmed line `t` is a move with a Y that ends beyond the limit.
pub open spec fn splits(m: Modal, t: Seq<char>, limit: int) -> bool {
    &&& t.len() > 0
    &&& t[0] != ';'
    &&& is_move(t)
    &&& axis_value(t, 'Y') is Some
    &&& target_y(next_absolute(t, m.absolute), m.current_y, axis_value(t, 'Y')->0.units as int)
        > limit
}

/// The modal state after the trimmed line `t`.
pub open spec fn step_modal(m: Modal, t: Seq<char>) -> Modal {
    if t.len() == 0 || t[0] == ';' {
        m
    } else {
        let absolute = next_absolute(t, m.absolute);
        if is_move(t) && axis_value(t, 'Y') is Some {
            Modal {
                absolute,
                current_y: target_y(absolute, m.current_y, axis_value(t, 'Y')->0.units as int),
            }
        } else {
            Modal { absolute, current_y: m.current_y }
        }
    }
}

/// The lines emitted for the trimmed line `t`.
pub open spec fn step_lines(m: Modal, t: Seq<char>, limit: int, axis: char) -> Seq<Seq<char>> {
    if splits(m, t, limit) {
        split_lines(
            t,
            next_absolute(t, m.absolute),
            m.current_y,
            step_modal(m, t).current_y,
            limit,
            axis,
        )
    } else {
        seq![t]
    }
}

/// The translation of `lines`, started in the modal state `m`.
pub open spec fn translate_from(lines: Seq<Seq<char>>, m: Modal, limit: int, axis: char) -> Seq<
    Seq<char>,
>
    decreases lines.len(),
{
    if lines.len() == 0 {
        Seq::empty()
    } else {
        let t = trim(lines[0]);
        step_lines(m, t, limit, axis) + translate_from(
            lines.drop_first(),
            step_modal(m, t),
            limit,
            axis,
        )
    }
}

/// The translation of a program under a configuration.
pub open spec fn translation(lines: Seq<Seq<char>>, config: MotionConfig) -> Seq<Seq<char>> {
    translate_from(
        lines,
        initial_modal(),
        config.gantry_y_limit_mm.units as int,
        config.bed_axis,
    )
}

/// Whether no line of `lines`, started in `m`, is a move beyond the limit.
pub open spec fn compliant_from(lines: Seq<Seq<char>>, m: Modal, limit: int) -> bool
    decreases lines.len(),
{
    lines.len() == 0 || (!splits(m, trim(lines[0]), limit) && compliant_from(
        lines.drop_first(),
        step_modal(m, trim(lines[0])),
        limit,
    ))
}

/// Each line trimmed.
pub open spec fn trimmed(lines: Seq<Seq<char>>) -> Seq<Seq<char>> {
    lines.map_values(|l: Seq<char>| trim(l))
}

/// A program in which no Y target exceeds the limit is translated into
/// itself, each line trimmed.
pub proof fn lemma_compliant_unchanged(lines: Seq<Seq<char>>, m: Modal, limit: int, axis: char)
    requires
        compliant_from(lines, m, limit),
    ensures
        translate_from(lines, m, limit, axis) == trimmed(lines),
    decreases lines.len(),
{
    if lines.len() == 0 {
        assert(trimmed(lines) =~= Seq::<Seq<char>>::empty());
    } else {
        let t = trim(lines[0]);
        lemma_compliant_unchanged(lines.drop_first(), step_modal(m, t), limit, axis);
        assert(seq![t] + trimmed(lines.drop_first()) =~= trimmed(lines));
    }
}

/// Every line of a program gives one line or two, in the order of the
/// program: the translation is at least as long as the program and at most
/// twice as long.
pub proof fn lemma_translation_length(lines: Seq<Seq<char>>, m: Modal, limit: int, axis: char)
    ensures
        lines.len() <= translate_from(lines, m, limit, axis).len() <= 2 * lines.len(),
    decreases lines.len(),
{
    if lines.len() > 0 {
        let t = trim(lines[0]);
        lemma_translation_length(lines.drop_first(), step_modal(m, t), limit, axis);
        assert(1 <= step_lines(m, t, limit, axis).len() <= 2);
    }
}

/// A split move is conserved: where a move starts at or below the limit and
/// ends beyond it, the travel of the gantry's part and the distance of the
/// bed's part add up to the travel of the move.
pub proof fn lemma_split_conserves(absolute: bool, current: int, y: int, limit: int)
    requires
        current <= limit,
        target_y(absolute, current, y) > limit,
    ensures
        gantry_travel(absolute, current, limit) + bed_distance(
            target_y(absolute, current, y),
            limit,
        ) == target_y(absolute, current, y) - current,
{
}

/// The same on a line of a program: where a line's move starts at or below
/// the limit and is split, what the gantry and the bed travel adds up to the
/// travel that the line asks for.
pub proof fn lemma_split_line_conserves(m: Modal, t: Seq<char>, limit: int)
    requires
        splits(m, t, limit),
        m.current_y <= limit,
    ensures
        gantry_travel(next_absolute(t, m.absolute), m.current_y, limit) + bed_distance(
            step_modal(m, t).current_y,
            limit,
        ) == step_modal(m, t).current_y - m.current_y,
{
}

proof fn lemma_letter_index(s: Seq<char>, axis: char)
    ensures
        0 <= letter_index(s, axis) <= s.len(),
        letter_index(s, axis) < s.len() ==> same_letter(s[letter_index(s, axis)], axis),
        forall|j: int| 0 <= j < letter_index(s, axis) ==> !same_letter(s[j], axis),
    decreases s.len(),
{
    if s.len() > 0 && !same_letter(s[0], axis) {
        lemma_letter_index(s.drop_first(), axis);
        assert forall|j: int| 0 <= j < letter_index(s, axis) implies !same_letter(s[j], axis) by {
            if j > 0 {
                assert(s.drop_first()[j - 1] == s[j]);
            }
        }
    }
}

proof fn lemma_letter_y(c: char)
    ensures
        same_letter(c, 'Y') <==> c == 'Y' || c == 'y',
{
    assert('Y' as u32 == 89);
    assert('y' as u32 == 121);
    if same_letter(c, 'Y') {
        assert(c as u32 == 89 || c as u32 == 121);
        if c as u32 == 89 {
            assert(c == 'Y');
        } else {
            assert(c == 'y');
        }
    }
}

proof fn lemma_rewrite_copies(s: Seq<char>, value: Seq<char>, i: int)
    requires
        0 <= i <= s.len(),
        forall|j: int| 0 <= j < i ==> s[j] != 'Y' && s[j] != 'y',
    ensures
        rewrite_y(s, value, false) == s.subrange(0, i) + rewrite_y(
            s.subrange(i, s.len() as int),
            value,
            false,
        ),
    decreases i,
{
    if i == 0 {
        assert(s.subrange(0, s.len() as int) =~= s);
        assert(s.subrange(0, 0) + rewrite_y(s, value, false) =~= rewrite_y(s, value, false));
    } else {
        let r = s.drop_first();
        assert(s[0] != 'Y' && s[0] != 'y');
        assert forall|j: int| 0 <= j < i - 1 implies r[j] != 'Y' && r[j] != 'y' by {
            assert(r[j] == s[j + 1]);
        }
        lemma_rewrite_copies(r, value, i - 1);
        assert(r.subrange(i - 1, r.len() as int) =~= s.subrange(i, s.len() as int));
        assert(seq![s[0]] + r.subrange(0, i - 1) =~= s.subrange(0, i));
        let tail = rewrite_y(s.subrange(i, s.len() as int), value, false);
        assert(seq![s[0]] + (r.subrange(0, i - 1) + tail) =~= s.subrange(0, i) + tail);
    }
}

proof fn lemma_rewrite_after_run(x: Seq<char>, value: Seq<char>)
    ensures
        rewrite_y(x, value, true).len() == 0 || !is_numeric(rewrite_y(x, value, true)[0]),
    decreases x.len(),
{
    if x.len() > 0 && is_numeric(x[0]) {
        lemma_rewrite_after_run(x.drop_first(), value);
    }
}

/// The gantry's line of a split move reads back as it was written: where a
/// line has a Y number, the line with `w` put in its place has the Y number
/// `w`.
pub proof fn lemma_gantry_line_reads_back(t: Seq<char>, w: int)
    requires
        axis_value(t, 'Y') is Some,
        -MAX_UNITS <= w <= MAX_UNITS,
    ensures
        axis_value(replace_y(t, fixed4(w)), 'Y') == Some(Decimal { units: w as i64 }),
{
    let v = fixed4(w);
    let i = letter_index(t, 'Y');
    lemma_letter_index(t, 'Y');
    let rest = t.subrange(i + 1, t.len() as int);
    assert(rest.len() > 0 && is_numeric(rest[0])) by {
        if !(rest.len() > 0 && is_numeric(rest[0])) {
            assert(numeric_prefix(rest) =~= Seq::<char>::empty());
            assert(unsigned_part(Seq::<char>::empty()) =~= Seq::<char>::empty());
            assert(int_digits(Seq::<char>::empty()) =~= Seq::<char>::empty());
            assert(frac_digits(Seq::<char>::empty()) =~= Seq::<char>::empty());
            assert(!is_decimal(Seq::<char>::empty()));
        }
    }
    assert forall|j: int| 0 <= j < i implies t[j] != 'Y' && t[j] != 'y' by {
        assert(!same_letter(t[j], 'Y'));
        lemma_letter_y(t[j]);
    }
    lemma_rewrite_copies(t, v, i);
    let from = t.subrange(i, t.len() as int);
    assert(from[0] == t[i]);
    assert(from[1] == rest[0]);
    lemma_letter_y(t[i]);
    assert(from[0] == 'Y' || from[0] == 'y');
    assert(from.drop_first() =~= rest);
    let after = rewrite_y(rest, v, true);
    lemma_rewrite_after_run(rest, v);
    assert(rewrite_y(from, v, false) == seq![t[i]] + v + after);
    let out = replace_y(t, v);
    assert(out =~= t.subrange(0, i) + (seq![t[i]] + v + after));
    assert forall|j: int| 0 <= j < i implies !same_letter(out[j], 'Y') by {
        assert(out[j] == t[j]);
    }
    assert(out[i] == t[i]);
    lemma_letter_index_unique(out, 'Y', i);
    let tail = out.subrange(i + 1, out.len() as int);
    assert(tail =~= v + after);
    lemma_fixed4_chars(w);
    assert forall|j: int| 0 <= j < v.len() implies is_numeric(tail[j]) by {
        assert(tail[j] == v[j]);
    }
    if after.len() > 0 {
        assert(tail[v.len() as int] == after[0]);
    }
    lemma_numeric_prefix(tail, v.len() as int);
    assert(tail.subrange(0, v.len() as int) =~= v);
    lemma_fixed4_reads_back(w);
}

/// The bed's line reads back as it was written: its number after the axis
/// letter is the distance, for an axis letter that is none of `G`, `1` and
/// the blank.
pub proof fn lemma_bed_line_reads_back(axis: char, distance: int, feed: Option<int>)
    requires
        -MAX_UNITS <= distance <= MAX_UNITS,
        !same_letter('G', axis),
        !same_letter('1', axis),
        !same_letter(' ', axis),
    ensures
        axis_value(bed_line(axis, distance, feed), axis) == Some(
            Decimal { units: distance as i64 },
        ),
{
    let v = fixed4(distance);
    let line = bed_line(axis, distance, feed);
    let suffix = feed_suffix(feed);
    assert(line =~= seq!['G', '1', ' ', axis] + (v + suffix));
    assert(line[0] == 'G' && line[1] == '1' && line[2] == ' ' && line[3] == axis);
    lemma_letter_index_unique(line, axis, 3);
    let tail = line.subrange(4, line.len() as int);
    assert(tail =~= v + suffix);
    lemma_fixed4_chars(distance);
    assert forall|j: int| 0 <= j < v.len() implies is_numeric(tail[j]) by {
        assert(tail[j] == v[j]);
    }
    if suffix.len() > 0 {
        assert(suffix[0] == ' ');
        assert(tail[v.len() as int] == suffix[0]);
    }
    lemma_numeric_prefix(tail, v.len() as int);
    assert(tail.subrange(0, v.len() as int) =~= v);
    lemma_fixed4_reads_back(distance);
}

/// The Y travel that a line asks for, read from its text: from `current` to
/// the target of its Y number, nothing without a Y number.
pub open spec fn y_travel(line: Seq<char>, absolute: bool, current: int) -> int {
    match axis_value(line, 'Y') {
        Some(y) => target_y(absolute, current, y.units as int) - current,
        None => 0,
    }
}

/// The bed travel that a line asks for, read from its text.
pub open spec fn bed_travel(line: Seq<char>, axis: char) -> int {
    match axis_value(line, axis) {
        Some(d) => d.units as int,
        None => 0,
    }
}

proof fn lemma_split_lines_read_back(
    t: Seq<char>,
    absolute: bool,
    current: int,
    target: int,
    limit: int,
    axis: char,
)
    requires
        axis_value(t, 'Y') is Some,
        target == target_y(absolute, current, axis_value(t, 'Y')->0.units as int),
        target > limit,
        -MAX_UNITS <= limit <= MAX_UNITS,
        current <= limit,
        limit - current <= MAX_UNITS,
        target - limit <= MAX_UNITS,
        !same_letter('G', axis),
        !same_letter('1', axis),
        !same_letter(' ', axis),
    ensures
        ({
            let out = split_lines(t, absolute, current, target, limit, axis);
            if current < limit {
                out.len() == 2 && y_travel(out[0], absolute, current) + bed_travel(out[1], axis)
                    == target - current
            } else {
                out.len() == 1 && bed_travel(out[0], axis) == target - current
            }
        }),
{
    let feed = feed_units(axis_value(t, 'F'));
    let bed = bed_line(axis, bed_distance(target, limit), feed);
    lemma_bed_line_reads_back(axis, bed_distance(target, limit), feed);
    assert(bed_travel(bed, axis) == target - limit);
    if current < limit {
        let w = gantry_word(absolute, current, limit)->0;
        lemma_gantry_line_reads_back(t, w);
        let first = replace_y(t, fixed4(w));
        assert(axis_value(first, 'Y') == Some(Decimal { units: w as i64 }));
        assert(y_travel(first, absolute, current) == limit - current);
        assert(split_lines(t, absolute, current, target, limit, axis) == seq![first, bed]);
    } else {
        assert(split_lines(t, absolute, current, target, limit, axis) == seq![bed]);
    }
}

/// Conservation in the emitted text. Where a line's move starts at or below
/// the limit and is split, the Y travel read from the gantry's line and the
/// bed travel read from the bed's line add up to the Y travel read from the
/// line itself. This holds for numbers within the range of the decimal
/// grammar and a bed axis letter that is none of `G`, `1` and the blank.
pub proof fn lemma_split_text_conserves(m: Modal, t: Seq<char>, limit: int, axis: char)
    requires
        splits(m, t, limit),
        -MAX_UNITS <= limit <= MAX_UNITS,
        m.current_y <= limit,
        limit - m.current_y <= MAX_UNITS,
        step_modal(m, t).current_y - limit <= MAX_UNITS,
        !same_letter('G', axis),
        !same_letter('1', axis),
        !same_letter(' ', axis),
    ensures
        ({
            let out = step_lines(m, t, limit, axis);
            let absolute = next_absolute(t, m.absolute);
            let asked = y_travel(t, absolute, m.current_y);
            if m.current_y < limit {
                out.len() == 2 && y_travel(out[0], absolute, m.current_y) + bed_travel(
                    out[1],
                    axis,
                ) == asked
            } else {
                out.len() == 1 && bed_travel(out[0], axis) == asked
            }
        }),
{
    let absolute = next_absolute(t, m.absolute);
    let target = step_modal(m, t).current_y;
    assert(axis_value(t, 'Y') is Some);
    assert(target == target_y(absolute, m.current_y, axis_value(t, 'Y')->0.units as int));
    assert(target > limit);
    lemma_split_lines_read_back(t, absolute, m.current_y, target, limit, axis);
    assert(step_lines(m, t, limit, axis) == split_lines(
        t,
        absolute,
        m.current_y,
        target,
        limit,
        axis,
    ));
    assert(y_travel(t, absolute, m.current_y) == target - m.current_y);
}

/// Translates a program: Y moves that end beyond the gantry limit become a
/// gantry move to the limit and a bed-axis move for the rest; every other
/// line is emitted trimmed and otherwise unchanged.
pub fn translate_lines(lines: &[&str], config: &MotionConfig) -> (out: Vec<String>)
    ensures
        string_views(out@) == translation(slice_views(lines@), *config),
{
    let limit: i128 = config.gantry_y_limit_mm.units as i128;
    let axis = config.bed_axis;
    let n = lines.len();
    let mut out: Vec<String> = Vec::new();
    let mut absolute = true;
    let mut current: i128 = 0;
    let mut i: usize = 0;
    let ghost all = slice_views(lines@);
    proof {
        assert(all.subrange(0, n as int) =~= all);
        assert(string_views(out@) + translation(all, *config) =~= translation(all, *config));
    }
    while i < n
        invariant
            i <= n == lines.len(),
            all == slice_views(lines@),
            limit == config.gantry_y_limit_mm.units,
            axis == config.bed_axis,
            -(i as int) * MAX_UNITS <= current <= (i as int) * MAX_UNITS,
            string_views(out@) + translate_from(
                all.subrange(i as int, n as int),
                Modal { absolute, current_y: current as int },
                limit as int,
                axis,
            ) == translation(all, *config),
        decreases n - i,
    {
        let v = to_chars(lines[i]);
        let t = trim_chars(&v);
        let ghost rest = all.subrange(i as int, n as int);
        let ghost m = Modal { absolute, current_y: current as int };
        let ghost before = string_views(out@);
        proof {
            assert(rest[0] == lines@[i as int]@);
            assert(rest.drop_first() =~= all.subrange(i + 1, n as int));
            assert(t@ == trim(rest[0]));
        }
        let mut split = false;
        if t.len() > 0 && t[0] != ';' {
            if has_mode_chars(&t, '0') {
                absolute = true;
            }
            if has_mode_chars(&t, '1') {
                absolute = false;
            }
            proof {
                assert(absolute == next_absolute(t@, m.absolute));
            }
            if is_move_chars(&t) {
                match axis_value_chars(&t, 'Y') {
                    Some(y) => {
                        let target: i128 = if absolute {
                            y.units as i128
                        } else {
                            current + (y.units as i128)
                        };
                        if target > limit {
                            split = true;
                            let to_limit: i128 = limit - current;
                            let overflow: i128 = target - limit;
                            let feed = axis_value_chars(&t, 'F');
                            if to_limit > 0 {
                                let mut value: Vec<char> = Vec::new();
                                push_fixed4(
                                    &mut value,
                                    if absolute {
                                        limit
                                    } else {
                                        to_limit
                                    },
                                );
                                proof {
                                    let w = gantry_word(absolute, current as int, limit as int)->0;
                                    assert(Seq::<char>::empty() + fixed4(w) =~= fixed4(w));
                                }
                                let first = replace_y_chars(&t, &value);
                                out.push(to_text(&first));
                            }
                            let bed = bed_line_chars(axis, overflow, feed);
                            out.push(to_text(&bed));
                            proof {
                                assert(splits(m, t@, limit as int));
                                assert(string_views(out@) =~= before + step_lines(
                                    m,
                                    t@,
                                    limit as int,
                                    axis,
                                ));
                            }
                        }
                        current = target;
                    },
                    None => {},
                }
            }
        }
        if !split {
            out.push(to_text(&t));
            proof {
                assert(!splits(m, t@, limit as int));
                assert(string_views(out@) =~= before + step_lines(m, t@, limit as int, axis));
            }
        }
        proof {
            let m2 = Modal { absolute, current_y: current as int };
            assert(m2 == step_modal(m, t@));
            assert(string_views(out@) + translate_from(rest.drop_first(), m2, limit as int, axis)
                =~= before + translate_from(rest, m, limit as int, axis));
        }
        i += 1;
    }
    out
}

} // verus!
