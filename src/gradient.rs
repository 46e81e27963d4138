use vstd::prelude::*;
use colored::Colorize;

verus! {

/// Red, green and blue of the colour a line starts with.
pub const START_RGB: (u8, u8, u8) = (247, 37, 133);

/// Red, green and blue of the colour a line ends with.
pub const END_RGB: (u8, u8, u8) = (76, 201, 240);

/// Whether `c` has Unicode's White_Space property.
pub open spec fn whitespace(c: char) -> bool {
    let u = c as u32;
    ||| 0x9 <= u <= 0xd
    ||| u == 0x20
    ||| u == 0x85
    ||| u == 0xa0
    ||| u == 0x1680
    ||| 0x2000 <= u <= 0x200a
    ||| u == 0x2028
    ||| u == 0x2029
    ||| u == 0x202f
    ||| u == 0x205f
    ||| u == 0x3000
}

/// Tells white space from other characters, as `char::is_whitespace` does.
fn is_whitespace(c: char) -> (r: bool)
    ensures
        r == whitespace(c),
{
    let u = c as u32;
    (0x9 <= u && u <= 0xd) || u == 0x20 || u == 0x85 || u == 0xa0 || u == 0x1680 || (0x2000 <= u
        && u <= 0x200a) || u == 0x2028 || u == 0x2029 || u == 0x202f || u == 0x205f || u == 0x3000
}

/// Splits `s` at every '\n': always at least one piece.
pub open spec fn split_newlines(s: Seq<char>) -> Seq<Seq<char>>
    decreases s.len(),
{
    if s.len() == 0 {
        seq![Seq::empty()]
    } else {
        let prev = split_newlines(s.drop_last());
        if s.last() == '\n' {
            prev.push(Seq::empty())
        } else {
            prev.update(prev.len() - 1, prev.last().push(s.last()))
        }
    }
}

/// A line that ended in '\n' loses a trailing '\r'.
pub open spec fn strip_cr(l: Seq<char>) -> Seq<char> {
    if l.len() > 0 && l.last() == '\r' {
        l.drop_last()
    } else {
        l
    }
}

/// The lines of `s`: split at '\n', each line that a '\n' ended stripped of a
/// trailing '\r', and no empty line after a final '\n'.
pub open spec fn lines_of(s: Seq<char>) -> Seq<Seq<char>> {
    let parts = split_newlines(s);
    let ended = parts.drop_last().map_values(|l: Seq<char>| strip_cr(l));
    if parts.last().len() == 0 {
        ended
    } else {
        ended.push(parts.last())
    }
}

/// Relies on str::lines, which splits at "\n" and "\r\n" and yields no empty
/// line after a final line ending.
#[verifier::external_body]
fn text_lines(text: &str) -> (r: Vec<String>)
    ensures
        r@.map_values(|l: String| l@) == lines_of(text@),
{
    text.lines().map(|l| l.to_string()).collect()
}

/// The reset sequence that closes a coloured span.
pub open spec fn reset_seq() -> Seq<char> {
    seq!['\u{1b}', '[', '0', 'm']
}

/// The decimal digit `d`.
pub open spec fn digit(d: nat) -> char {
    seq!['0', '1', '2', '3', '4', '5', '6', '7', '8', '9'][d as int]
}

/// `n` written in decimal, without leading zeros.
pub open spec fn decimal(n: nat) -> Seq<char>
    decreases n,
{
    if n < 10 {
        seq![digit(n)]
    } else {
        decimal(n / 10).push(digit(n % 10))
    }
}

/// `c` between the escape sequence that selects the graphic rendition
/// `code` and the reset sequence.
pub open spec fn sgr_wrapped(code: Seq<char>, c: char) -> Seq<char> {
    seq!['\u{1b}', '['] + code + seq!['m', c] + reset_seq()
}

/// The rendition code of a 24-bit foreground colour.
pub open spec fn truecolor_code(r: nat, g: nat, b: nat) -> Seq<char> {
    seq!['3', '8', ';', '2', ';'] + decimal(r) + seq![';'] + decimal(g) + seq![';'] + decimal(b)
}

/// The rendition code of one of the sixteen basic foreground colours.
pub open spec fn basic_code(code: Seq<char>) -> bool {
    &&& code.len() == 2
    &&& (code[0] == '3' || code[0] == '9')
    &&& '0' <= code[1] <= '7'
}

/// `p` shows the character `c`: plain, in the 24-bit colour (`r`, `g`,
/// `b`), or in a basic colour where the terminal lacks 24-bit colour.
pub open spec fn painted(p: Seq<char>, c: char, r: nat, g: nat, b: nat) -> bool {
    ||| p == seq![c]
    ||| p == sgr_wrapped(truecolor_code(r, g, b), c)
    ||| exists|code: Seq<char>| basic_code(code) && p == #[trigger] sgr_wrapped(code, c)
}

/// Relies on colored's `truecolor` and its `Display`: the text comes back
/// plain when colouring is off, else as `ESC[38;2;r;g;bm` (or a basic colour
/// code when `COLORTERM` names no 24-bit support) before it and `ESC[0m`
/// after it.
#[verifier::external_body]
fn paint(s: &str, r: u8, g: u8, b: u8) -> (out: String)
    requires
        s@.len() == 1,
    ensures
        painted(out@, s@[0], r as nat, g as nat, b as nat),
{
    s.truecolor(r, g, b).to_string()
}

/// The channel value at `i` of `w` steps from `start` to `end`, rounded down.
pub open spec fn channel(start: int, end: int, i: int, w: int) -> int {
    (start * (w - i) + end * i) / w
}

proof fn lemma_channel_bound(start: int, end: int, i: int, w: int)
    requires
        0 <= start <= 255,
        0 <= end <= 255,
        0 <= i <= w,
        0 < w,
    ensures
        0 <= start * (w - i) + end * i <= 255 * w,
        0 <= channel(start, end, i, w) <= 255,
{
    assert(0 <= start * (w - i) + end * i <= 255 * w) by (nonlinear_arith)
        requires
            0 <= start <= 255,
            0 <= end <= 255,
            0 <= i <= w,
    ;
    let n = start * (w - i) + end * i;
    assert(n / w <= 255) by (nonlinear_arith)
        requires
            0 <= n <= 255 * w,
            0 < w,
    ;
}

proof fn lemma_channel_shape(s: int, e: int, i: int, j: int, w: int)
    requires
        0 <= s <= 255,
        0 <= e <= 255,
        0 <= i <= j <= w,
        0 < w,
    ensures
        channel(s, e, 0, w) == s,
        channel(s, e, w, w) == e,
        s <= e ==> channel(s, e, i, w) <= channel(s, e, j, w),
        s >= e ==> channel(s, e, i, w) >= channel(s, e, j, w),
        w * channel(s, e, i, w) <= s * (w - i) + e * i < w * (channel(s, e, i, w) + 1),
{
    assert(s * (w - 0) + e * 0 == w * s) by (nonlinear_arith);
    assert(s * (w - w) + e * w == w * e) by (nonlinear_arith);
    vstd::arithmetic::div_mod::lemma_div_multiples_vanish(s, w);
    vstd::arithmetic::div_mod::lemma_div_multiples_vanish(e, w);
    let ni = s * (w - i) + e * i;
    let nj = s * (w - j) + e * j;
    assert((s * (w - j) + e * j) - (s * (w - i) + e * i) == (e - s) * (j - i)) by (nonlinear_arith);
    if s <= e {
        assert((e - s) * (j - i) >= 0) by (nonlinear_arith)
            requires
                s <= e,
                i <= j,
        ;
        vstd::arithmetic::div_mod::lemma_div_is_ordered(ni, nj, w);
    }
    if s >= e {
        assert((e - s) * (j - i) <= 0) by (nonlinear_arith)
            requires
                s >= e,
                i <= j,
        ;
        vstd::arithmetic::div_mod::lemma_div_is_ordered(nj, ni, w);
    }
    vstd::arithmetic::div_mod::lemma_fundamental_div_mod(ni, w);
    assert(0 <= ni % w < w);
    assert(w * (ni / w + 1) == w * (ni / w) + w) by (nonlinear_arith);
}

/// The shape of the gradient over a line whose last position is `w`: it
/// starts at the start colour and ends at the end colour exactly; from
/// position `i` to a later position `j` red never rises and green and blue
/// never fall, so every channel stays between its two end values; and each
/// channel is the exact straight blend rounded down.
pub proof fn gradient_shape_law(i: int, j: int, w: int)
    requires
        0 < w,
        0 <= i <= j <= w,
    ensures
        channel(247, 76, 0, w) == 247 && channel(37, 201, 0, w) == 37 && channel(133, 240, 0, w)
            == 133,
        channel(247, 76, w, w) == 76 && channel(37, 201, w, w) == 201 && channel(133, 240, w, w)
            == 240,
        channel(247, 76, i, w) >= channel(247, 76, j, w),
        channel(37, 201, i, w) <= channel(37, 201, j, w),
        channel(133, 240, i, w) <= channel(133, 240, j, w),
        76 <= channel(247, 76, i, w) <= 247,
        37 <= channel(37, 201, i, w) <= 201,
        133 <= channel(133, 240, i, w) <= 240,
        w * channel(247, 76, i, w) <= 247 * (w - i) + 76 * i < w * (channel(247, 76, i, w) + 1),
        w * channel(37, 201, i, w) <= 37 * (w - i) + 201 * i < w * (channel(37, 201, i, w) + 1),
        w * channel(133, 240, i, w) <= 133 * (w - i) + 240 * i < w * (channel(133, 240, i, w)
            + 1),
{
    lemma_channel_shape(247, 76, i, j, w);
    lemma_channel_shape(37, 201, i, j, w);
    lemma_channel_shape(133, 240, i, j, w);
    lemma_channel_shape(247, 76, 0, i, w);
    lemma_channel_shape(37, 201, 0, i, w);
    lemma_channel_shape(133, 240, 0, i, w);
    lemma_channel_shape(247, 76, i, w, w);
    lemma_channel_shape(37, 201, i, w, w);
    lemma_channel_shape(133, 240, i, w, w);
}

fn channel_at(start: u8, end: u8, i: usize, w: usize) -> (c: u8)
    requires
        0 < w,
        i <= w,
    ensures
        c == channel(start as int, end as int, i as int, w as int),
{
    proof {
        lemma_channel_bound(start as int, end as int, i as int, w as int);
    }
    let a: u128 = (start as u128) * ((w - i) as u128);
    let b: u128 = (end as u128) * (i as u128);
    let n: u128 = a + b;
    (n / (w as u128)) as u8
}

/// The colour at position `position` of a line whose last position is
/// `width`: the straight blend from the start colour to the end colour.
pub fn gradient_rgb(position: usize, width: usize) -> (rgb: (u8, u8, u8))
    requires
        0 < width,
        position <= width,
    ensures
        rgb.0 == channel(247, 76, position as int, width as int),
        rgb.1 == channel(37, 201, position as int, width as int),
        rgb.2 == channel(133, 240, position as int, width as int),
{
    (
        channel_at(START_RGB.0, END_RGB.0, position, width),
        channel_at(START_RGB.1, END_RGB.1, position, width),
        channel_at(START_RGB.2, END_RGB.2, position, width),
    )
}

/// The last position of a line of `n` characters, at least 1: the width
/// the gradient is spread over.
pub open spec fn line_width(n: nat) -> int {
    if n > 1 {
        n - 1
    } else {
        1
    }
}

/// The piece of output for character `c` at position `j` of a line of `n`
/// characters: white space stays as it is, any other character is painted
/// in the gradient's colour at `j`.
pub open spec fn piece_ok(p: Seq<char>, c: char, j: int, n: nat) -> bool {
    if whitespace(c) {
        p == seq![c]
    } else {
        painted(
            p,
            c,
            channel(247, 76, j, line_width(n)) as nat,
            channel(37, 201, j, line_width(n)) as nat,
            channel(133, 240, j, line_width(n)) as nat,
        )
    }
}

/// The pieces of one line, in order.
pub open spec fn concat_pieces(ps: Seq<Seq<char>>) -> Seq<char>
    decreases ps.len(),
{
    if ps.len() == 0 {
        Seq::empty()
    } else {
        concat_pieces(ps.drop_last()) + ps.last()
    }
}

/// The pieces of all lines, each line followed by '\n'.
pub open spec fn join_lines(pss: Seq<Seq<Seq<char>>>) -> Seq<char>
    decreases pss.len(),
{
    if pss.len() == 0 {
        Seq::empty()
    } else {
        join_lines(pss.drop_last()) + concat_pieces(pss.last()) + seq!['\n']
    }
}

/// `pss` has one piece for each character of each line of `ls`, as
/// `piece_ok` asks.
pub open spec fn pieces_fit(ls: Seq<Seq<char>>, pss: Seq<Seq<Seq<char>>>) -> bool {
    &&& pss.len() == ls.len()
    &&& forall|l: int|
        0 <= l < ls.len() ==> {
            &&& (#[trigger] pss[l]).len() == ls[l].len()
            &&& forall|j: int| 0 <= j < ls[l].len() ==> piece_ok(#[trigger] pss[l][j], ls[l][j], j, ls[l].len())
        }
}

/// Paints every non-blank character of each line with a colour that runs
/// from pink at the line's start to cyan at its end, and ends every line
/// with '\n'.
pub fn apply_cyberpunk_gradient(text: &str) -> (r: String)
    ensures
        exists|pss: Seq<Seq<Seq<char>>>|
            pieces_fit(lines_of(text@), pss) && r@ == #[trigger] join_lines(pss),
{
    let lines = text_lines(text);
    let ghost ls = lines_of(text@);
    let mut result = String::new();
    let ghost mut pss: Seq<Seq<Seq<char>>> = Seq::empty();
    let mut li: usize = 0;
    while li < lines.len()
        invariant
            li <= lines@.len(),
            lines@.map_values(|l: String| l@) == ls,
            pss.len() == li,
            forall|l: int|
                0 <= l < li ==> {
                    &&& (#[trigger] pss[l]).len() == ls[l].len()
                    &&& forall|j: int|
                        0 <= j < ls[l].len() ==> piece_ok(#[trigger] pss[l][j], ls[l][j], j, ls[l].len())
                },
            result@ == join_lines(pss),
        decreases lines.len() - li,
    {
        let line = lines[li].as_str();
        assert(line@ == ls[li as int]);
        let len = line.unicode_len();
        let width: usize = if len > 1 {
            len - 1
        } else {
            1
        };
        let ghost mut ps: Seq<Seq<char>> = Seq::empty();
        let ghost base = result@;
        let mut j: usize = 0;
        while j < len
            invariant
                j <= len,
                len == line@.len(),
                width > 0,
                width == line_width(len as nat),
                ps.len() == j,
                forall|k: int| 0 <= k < j ==> piece_ok(#[trigger] ps[k], line@[k], k, line@.len()),
                result@ == base + concat_pieces(ps),
            decreases len - j,
        {
            let c = line.get_char(j);
            let one = line.substring_char(j, j + 1);
            let piece = if is_whitespace(c) {
                String::from_str(one)
            } else {
                let rgb = gradient_rgb(j, width);
                paint(one, rgb.0, rgb.1, rgb.2)
            };
            proof {
                assert(one@ =~= seq![c]);
                let ps2 = ps.push(piece@);
                assert(ps2.drop_last() =~= ps);
                assert forall|k: int| 0 <= k < j + 1 implies piece_ok(#[trigger] ps2[k], line@[k], k, line@.len()) by {
                    if k < j {
                        assert(ps2[k] == ps[k]);
                    }
                }
                ps = ps2;
            }
            result.append(piece.as_str());
            assert(result@ =~= base + concat_pieces(ps));
            j = j + 1;
        }
        let nl = "\n";
        proof {
            reveal_strlit("\n");
        }
        result.append(nl);
        proof {
            let pss2 = pss.push(ps);
            assert(pss2.drop_last() =~= pss);
            assert(result@ =~= join_lines(pss2));
            assert forall|l: int|
                0 <= l < li + 1 implies {
                    &&& (#[trigger] pss2[l]).len() == ls[l].len()
                    &&& forall|j: int|
                        0 <= j < ls[l].len() ==> piece_ok(#[trigger] pss2[l][j], ls[l][j], j, ls[l].len())
                } by {
                if l < li {
                    assert(pss2[l] == pss[l]);
                }
            }
            pss = pss2;
        }
        li = li + 1;
    }
    proof {
        assert(lines@.map_values(|l: String| l@).len() == lines@.len());
        assert(pieces_fit(ls, pss));
    }
    result
}

/// The number of '\n' characters in `s`.
pub open spec fn newlines(s: Seq<char>) -> nat
    decreases s.len(),
{
    if s.len() == 0 {
        0
    } else {
        newlines(s.drop_last()) + if s.last() == '\n' {
            1nat
        } else {
            0nat
        }
    }
}

proof fn lemma_newlines_add(a: Seq<char>, b: Seq<char>)
    ensures
        newlines(a + b) == newlines(a) + newlines(b),
    decreases b.len(),
{
    if b.len() == 0 {
        assert(a + b =~= a);
    } else {
        lemma_newlines_add(a, b.drop_last());
        assert((a + b).drop_last() =~= a + b.drop_last());
    }
}

proof fn lemma_newlines_none(s: Seq<char>)
    requires
        forall|i: int| 0 <= i < s.len() ==> s[i] != '\n',
    ensures
        newlines(s) == 0,
    decreases s.len(),
{
    if s.len() > 0 {
        lemma_newlines_none(s.drop_last());
    }
}

proof fn lemma_decimal_no_newline(n: nat)
    ensures
        newlines(decimal(n)) == 0,
    decreases n,
{
    let digits = seq!['0', '1', '2', '3', '4', '5', '6', '7', '8', '9'];
    assert(forall|d: int| 0 <= d < 10 ==> digits[d] != '\n');
    if n < 10 {
        lemma_newlines_none(decimal(n));
    } else {
        lemma_decimal_no_newline(n / 10);
        assert(decimal(n).drop_last() =~= decimal(n / 10));
    }
}

proof fn lemma_sgr_no_newline(code: Seq<char>, c: char)
    requires
        newlines(code) == 0,
        c != '\n',
    ensures
        newlines(sgr_wrapped(code, c)) == 0,
{
    let a = seq!['\u{1b}', '['];
    let m = seq!['m', c];
    lemma_newlines_none(a);
    lemma_newlines_none(m);
    lemma_newlines_none(reset_seq());
    lemma_newlines_add(a, code);
    lemma_newlines_add(a + code, m);
    lemma_newlines_add(a + code + m, reset_seq());
}

proof fn lemma_piece_no_newline(p: Seq<char>, c: char, j: int, n: nat)
    requires
        piece_ok(p, c, j, n),
        c != '\n',
    ensures
        newlines(p) == 0,
{
    if p == seq![c] {
        lemma_newlines_none(p);
    } else if whitespace(c) {
    } else {
        let r = channel(247, 76, j, line_width(n)) as nat;
        let g = channel(37, 201, j, line_width(n)) as nat;
        let b = channel(133, 240, j, line_width(n)) as nat;
        if p == sgr_wrapped(truecolor_code(r, g, b), c) {
            let head = seq!['3', '8', ';', '2', ';'];
            let semi = seq![';'];
            lemma_newlines_none(head);
            lemma_newlines_none(semi);
            lemma_decimal_no_newline(r);
            lemma_decimal_no_newline(g);
            lemma_decimal_no_newline(b);
            lemma_newlines_add(head, decimal(r));
            lemma_newlines_add(head + decimal(r), semi);
            lemma_newlines_add(head + decimal(r) + semi, decimal(g));
            lemma_newlines_add(head + decimal(r) + semi + decimal(g), semi);
            lemma_newlines_add(head + decimal(r) + semi + decimal(g) + semi, decimal(b));
            lemma_sgr_no_newline(truecolor_code(r, g, b), c);
        } else {
            let code = choose|code: Seq<char>| basic_code(code) && p == #[trigger] sgr_wrapped(code, c);
            lemma_newlines_none(code);
            lemma_sgr_no_newline(code, c);
        }
    }
}

proof fn lemma_split_no_newline(s: Seq<char>)
    ensures
        split_newlines(s).len() >= 1,
        forall|k: int, i: int|
            0 <= k < split_newlines(s).len() && 0 <= i < split_newlines(s)[k].len()
                ==> #[trigger] split_newlines(s)[k][i] != '\n',
    decreases s.len(),
{
    if s.len() > 0 {
        lemma_split_no_newline(s.drop_last());
        let prev = split_newlines(s.drop_last());
        if s.last() != '\n' {
            let parts = split_newlines(s);
            assert forall|k: int, i: int| 0 <= k < parts.len() && 0 <= i < parts[k].len()
                implies #[trigger] parts[k][i] != '\n' by {
                if k == prev.len() - 1 && i == prev.last().len() {
                } else if k == prev.len() - 1 {
                    assert(parts[k][i] == prev[k][i]);
                } else {
                    assert(parts[k] == prev[k]);
                }
            }
        } else {
            let parts = split_newlines(s);
            assert forall|k: int, i: int| 0 <= k < parts.len() && 0 <= i < parts[k].len()
                implies #[trigger] parts[k][i] != '\n' by {
                if k < prev.len() {
                    assert(parts[k] == prev[k]);
                } else {
                    assert(parts[k].len() == 0);
                }
            }
        }
    }
}

proof fn lemma_lines_no_newline(s: Seq<char>)
    ensures
        forall|l: int, i: int|
            0 <= l < lines_of(s).len() && 0 <= i < lines_of(s)[l].len() ==> #[trigger] lines_of(
                s,
            )[l][i] != '\n',
{
    lemma_split_no_newline(s);
    let parts = split_newlines(s);
    let ls = lines_of(s);
    assert forall|l: int, i: int| 0 <= l < ls.len() && 0 <= i < ls[l].len() implies #[trigger] ls[l][i]
        != '\n' by {
        if l < parts.len() - 1 {
            assert(ls[l] == strip_cr(parts[l]));
            assert(ls[l][i] == parts[l][i]);
        } else {
            assert(ls[l] == parts[parts.len() - 1]);
            assert(ls[l][i] == parts[parts.len() - 1][i]);
        }
    }
}

proof fn lemma_join_newlines(ls: Seq<Seq<char>>, pss: Seq<Seq<Seq<char>>>)
    requires
        pieces_fit(ls, pss),
        forall|l: int, i: int| 0 <= l < ls.len() && 0 <= i < ls[l].len() ==> #[trigger] ls[l][i] != '\n',
    ensures
        newlines(join_lines(pss)) == pss.len(),
    decreases pss.len(),
{
    if pss.len() > 0 {
        let last = pss.len() - 1;
        assert(pieces_fit(ls.drop_last(), pss.drop_last())) by {
            assert forall|l: int| 0 <= l < ls.drop_last().len() implies {
                &&& (#[trigger] pss.drop_last()[l]).len() == ls.drop_last()[l].len()
                &&& forall|j: int| 0 <= j < ls.drop_last()[l].len() ==> piece_ok(
                    #[trigger] pss.drop_last()[l][j],
                    ls.drop_last()[l][j],
                    j,
                    ls.drop_last()[l].len(),
                )
            } by {
                assert(pss.drop_last()[l] == pss[l]);
                assert(ls.drop_last()[l] == ls[l]);
            }
        }
        lemma_join_newlines(ls.drop_last(), pss.drop_last());
        assert(pss[last].len() == ls[last].len());
        assert(forall|i: int| 0 <= i < ls[last].len() ==> #[trigger] ls[last][i] != '\n');
        lemma_concat_no_newline(pss[last], ls[last]);
        lemma_newlines_add(join_lines(pss.drop_last()), concat_pieces(pss.last()));
        lemma_newlines_add(join_lines(pss.drop_last()) + concat_pieces(pss.last()), seq!['\n']);
        let nl = seq!['\n'];
        assert(nl.len() == 1 && nl.last() == '\n');
        assert(nl.drop_last() =~= Seq::<char>::empty());
        assert(newlines(nl.drop_last()) == 0);
        assert(newlines(nl) == 1);
    }
}

proof fn lemma_concat_no_newline(ps: Seq<Seq<char>>, line: Seq<char>)
    requires
        ps.len() <= line.len(),
        forall|j: int| 0 <= j < ps.len() ==> piece_ok(#[trigger] ps[j], line[j], j, line.len()),
        forall|i: int| 0 <= i < line.len() ==> #[trigger] line[i] != '\n',
    ensures
        newlines(concat_pieces(ps)) == 0,
    decreases ps.len(),
{
    if ps.len() > 0 {
        let k = ps.len() - 1;
        assert(forall|j: int| 0 <= j < ps.drop_last().len() ==> ps.drop_last()[j] == ps[j]);
        lemma_concat_no_newline(ps.drop_last(), line);
        lemma_piece_no_newline(ps[k], line[k], k, line.len());
        lemma_newlines_add(concat_pieces(ps.drop_last()), ps.last());
    }
}

/// The painted text holds exactly one '\n' for each line of the input: no
/// colour sequence brings one in.
pub proof fn gradient_newline_law(text: Seq<char>, pss: Seq<Seq<Seq<char>>>)
    requires
        pieces_fit(lines_of(text), pss),
    ensures
        newlines(join_lines(pss)) == lines_of(text).len(),
{
    lemma_lines_no_newline(text);
    lemma_join_newlines(lines_of(text), pss);
}

} // verus!
