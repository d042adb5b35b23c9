//! General facts about the scanning model.

use crate::chars::{is_digit, is_letter, is_whitespace, CharClass};
use crate::grammar::{
    decimal_value, equals_sign_at, keyword, lemma_run_end_bounds, lemma_run_end_contents, lemma_run_end_is,
    lemma_scan_at_bounds, next_token, run_end, scan_at, symbol, token_start, token_stream, word_token, Scan,
};
use crate::token::TokenModel;
use vstd::prelude::*;

verus! {

/// The token of a text that consists of one operator character.
pub open spec fn operator(c: char) -> Option<TokenModel> {
    if c == '=' {
        Some(TokenModel::Assign)
    } else {
        symbol(c)
    }
}

/// A text that is a single operator character holds exactly the token of
/// that operator.
pub proof fn single_operator_is_one_token(c: char)
    requires
        operator(c) is Some,
    ensures
        token_stream(seq![c], 0) == seq![operator(c)->0],
{
    let s = seq![c];
    assert(!is_whitespace(c));
    assert(run_end(s, 0, CharClass::Whitespace) == 0);
    assert(run_end(s, 1, CharClass::Whitespace) == 1);
    assert(scan_at(s, 0) == Scan { token: operator(c)->0, end: 1 });
    assert(next_token(s, 1) is None);
    assert(token_stream(s, 1) == Seq::<TokenModel>::empty());
    assert(token_stream(s, 0) == seq![operator(c)->0] + token_stream(s, 1));
    assert(seq![operator(c)->0] + Seq::<TokenModel>::empty() =~= seq![operator(c)->0]);
}

/// Where only whitespace is left behind the cursor, no token is left: this
/// holds in particular of the empty text.
pub proof fn blank_rest_has_no_tokens(s: Seq<char>, pos: int)
    requires
        0 <= pos <= s.len(),
        forall|i: int| pos <= i < s.len() ==> is_whitespace(#[trigger] s[i]),
    ensures
        next_token(s, pos) is None,
        token_stream(s, pos) == Seq::<TokenModel>::empty(),
{
    assert forall|i: int| pos <= i < s.len() implies CharClass::Whitespace.contains(
        #[trigger] s[i],
    ) by {
        assert(is_whitespace(s[i]));
    }
    lemma_run_end_is(s, pos, CharClass::Whitespace, s.len() as int);
}

/// What a scanned token can be: never the end marker; an identifier is a
/// non-empty run of letters that spells no keyword; and every token covers at
/// least one character of the text.
pub proof fn scanned_token_shape(s: Seq<char>, start: int)
    requires
        0 <= start < s.len(),
    ensures
        scan_at(s, start).token != TokenModel::EOF,
        start < scan_at(s, start).end <= s.len(),
        scan_at(s, start).token matches TokenModel::Ident(name) ==> {
            &&& name == s.subrange(start, scan_at(s, start).end)
            &&& name.len() > 0
            &&& keyword(name) is None
            &&& forall|i: int| 0 <= i < name.len() ==> is_letter(#[trigger] name[i])
        },
{
    lemma_scan_at_bounds(s, start);
    if scan_at(s, start).token is Ident {
        lemma_run_end_bounds(s, start + 1, CharClass::Letter);
        lemma_run_end_contents(s, start + 1, CharClass::Letter);
        let end = run_end(s, start + 1, CharClass::Letter);
        let name = s.subrange(start, end);
        assert forall|i: int| 0 <= i < name.len() implies is_letter(#[trigger] name[i]) by {
            if i > 0 {
                assert(CharClass::Letter.contains(s[start + i]));
            }
        }
    }
}

/// Maximal munch: a token that starts with a letter covers the longest run of
/// letters from there, and one that starts with a digit the longest run of
/// digits, whose decimal value it holds.
pub proof fn words_and_numbers_are_longest_runs(s: Seq<char>, start: int)
    requires
        0 <= start < s.len(),
        is_letter(s[start]) || is_digit(s[start]),
    ensures
        ({
            let class = if is_letter(s[start]) {
                CharClass::Letter
            } else {
                CharClass::Digit
            };
            let scan = scan_at(s, start);
            &&& start < scan.end <= s.len()
            &&& forall|i: int| start <= i < scan.end ==> class.contains(#[trigger] s[i])
            &&& scan.end < s.len() ==> !class.contains(s[scan.end])
            &&& scan.token == if is_letter(s[start]) {
                word_token(s.subrange(start, scan.end))
            } else {
                TokenModel::Int(decimal_value(s.subrange(start, scan.end)))
            }
        }),
{
    lemma_run_end_bounds(s, start + 1, CharClass::Letter);
    lemma_run_end_bounds(s, start + 1, CharClass::Digit);
    lemma_run_end_contents(s, start + 1, CharClass::Letter);
    lemma_run_end_contents(s, start + 1, CharClass::Digit);
}

/// The text `s` with `pad` inserted in front of position `p`.
pub open spec fn padded(s: Seq<char>, p: int, pad: Seq<char>) -> Seq<char> {
    s.subrange(0, p) + pad + s.subrange(p, s.len() as int)
}

/// For a cursor at `pos`, the position `p` lies between tokens: in the
/// whitespace in front of some token that is still to come, at that token's
/// first character, or behind the last token.
pub open spec fn between_tokens(s: Seq<char>, pos: int, p: int) -> bool
    decreases s.len() - pos,
    via between_tokens_decreases
{
    pos <= p && (p <= token_start(s, pos) || match next_token(s, pos) {
        Some(scan) => between_tokens(s, scan.end, p),
        None => false,
    })
}

#[via_fn]
proof fn between_tokens_decreases(s: Seq<char>, pos: int, p: int) {
    lemma_run_end_bounds(s, pos, CharClass::Whitespace);
    let start = token_start(s, pos);
    if 0 <= start < s.len() {
        lemma_scan_at_bounds(s, start);
    }
}

proof fn lemma_padded_index(s: Seq<char>, p: int, pad: Seq<char>)
    requires
        0 <= p <= s.len(),
    ensures
        padded(s, p, pad).len() == s.len() + pad.len(),
        forall|j: int| 0 <= j < p ==> #[trigger] padded(s, p, pad)[j] == s[j],
        forall|j: int| p <= j < p + pad.len() ==> #[trigger] padded(s, p, pad)[j] == pad[j - p],
        forall|j: int| p <= j < s.len() ==> padded(s, p, pad)[j + pad.len()] == #[trigger] s[j],
{
}

proof fn lemma_run_end_shifted(t: Seq<char>, s: Seq<char>, k: int, a: int, class: CharClass)
    requires
        0 <= k,
        0 <= a <= s.len(),
        t.len() == s.len() + k,
        forall|j: int| a <= j < s.len() ==> t[j + k] == #[trigger] s[j],
    ensures
        run_end(t, a + k, class) == run_end(s, a, class) + k,
    decreases s.len() - a,
{
    if a < s.len() {
        assert(t[a + k] == s[a]);
        if class.contains(s[a]) {
            lemma_run_end_shifted(t, s, k, a + 1, class);
        }
    }
}

proof fn lemma_scan_at_shifted(t: Seq<char>, s: Seq<char>, k: int, a: int)
    requires
        0 <= k,
        0 <= a < s.len(),
        t.len() == s.len() + k,
        forall|j: int| a <= j < s.len() ==> t[j + k] == #[trigger] s[j],
    ensures
        scan_at(t, a + k) == (Scan { token: scan_at(s, a).token, end: scan_at(s, a).end + k }),
{
    assert(t[a + k] == s[a]);
    if a + 1 < s.len() {
        assert(t[a + 1 + k] == s[a + 1]);
    }
    assert(equals_sign_at(t, a + k + 1) == equals_sign_at(s, a + 1));
    lemma_run_end_shifted(t, s, k, a + 1, CharClass::Letter);
    lemma_run_end_shifted(t, s, k, a + 1, CharClass::Digit);
    lemma_run_end_bounds(s, a + 1, CharClass::Letter);
    lemma_run_end_bounds(s, a + 1, CharClass::Digit);
    let word_end = run_end(s, a + 1, CharClass::Letter);
    let number_end = run_end(s, a + 1, CharClass::Digit);
    assert(t.subrange(a + k, word_end + k) =~= s.subrange(a, word_end)) by {
        assert forall|i: int| 0 <= i < word_end - a implies #[trigger] t.subrange(
            a + k,
            word_end + k,
        )[i] == s[a + i] by {
            assert(t[(a + i) + k] == s[a + i]);
        }
    }
    assert(t.subrange(a + k, number_end + k) =~= s.subrange(a, number_end)) by {
        assert forall|i: int| 0 <= i < number_end - a implies #[trigger] t.subrange(
            a + k,
            number_end + k,
        )[i] == s[a + i] by {
            assert(t[(a + i) + k] == s[a + i]);
        }
    }
}

proof fn lemma_token_stream_shifted(t: Seq<char>, s: Seq<char>, k: int, a: int)
    requires
        0 <= k,
        0 <= a <= s.len(),
        t.len() == s.len() + k,
        forall|j: int| a <= j < s.len() ==> t[j + k] == #[trigger] s[j],
    ensures
        token_stream(t, a + k) == token_stream(s, a),
    decreases s.len() - a,
{
    lemma_run_end_shifted(t, s, k, a, CharClass::Whitespace);
    lemma_run_end_bounds(s, a, CharClass::Whitespace);
    let start = token_start(s, a);
    if start < s.len() {
        lemma_scan_at_shifted(t, s, k, start);
        lemma_scan_at_bounds(s, start);
        lemma_token_stream_shifted(t, s, k, scan_at(s, start).end);
    }
}

proof fn lemma_run_end_prefix(t: Seq<char>, s: Seq<char>, p: int, a: int, class: CharClass)
    requires
        0 <= a <= p <= s.len(),
        p <= t.len(),
        forall|j: int| 0 <= j < p ==> #[trigger] t[j] == s[j],
        run_end(s, a, class) <= p,
        run_end(s, a, class) == p && p < t.len() ==> !class.contains(t[p]),
    ensures
        run_end(t, a, class) == run_end(s, a, class),
{
    lemma_run_end_contents(s, a, class);
    lemma_run_end_bounds(s, a, class);
    let end = run_end(s, a, class);
    assert forall|i: int| a <= i < end implies class.contains(#[trigger] t[i]) by {
        assert(t[i] == s[i]);
        assert(class.contains(s[i]));
    }
    if end < p {
        assert(t[end] == s[end]);
    }
    lemma_run_end_is(t, a, class, end);
}

/// One step of scanning the padded text from a cursor in front of the pad.
/// Where the pad stands in the whitespace in front of the next token or at
/// that token's first character, the token moves back by the pad's length;
/// where it stands further back, the token is scanned as without the pad and
/// ends in front of the pad.
proof fn lemma_padded_step(s: Seq<char>, pos: int, p: int, pad: Seq<char>)
    requires
        0 <= pos <= p <= s.len(),
        between_tokens(s, pos, p),
        pad.len() > 0,
        forall|i: int| 0 <= i < pad.len() ==> is_whitespace(#[trigger] pad[i]),
    ensures
        pos <= token_start(s, pos) <= s.len(),
        p <= token_start(s, pos) ==> {
            &&& token_start(padded(s, p, pad), pos) == token_start(s, pos) + pad.len()
            &&& token_start(s, pos) < s.len() ==> scan_at(
                padded(s, p, pad),
                token_start(s, pos) + pad.len(),
            ) == (Scan {
                token: scan_at(s, token_start(s, pos)).token,
                end: scan_at(s, token_start(s, pos)).end + pad.len(),
            })
        },
        token_start(s, pos) < p ==> {
            &&& token_start(padded(s, p, pad), pos) == token_start(s, pos)
            &&& scan_at(padded(s, p, pad), token_start(s, pos)) == scan_at(s, token_start(s, pos))
            &&& token_start(s, pos) < scan_at(s, token_start(s, pos)).end <= p
            &&& between_tokens(s, scan_at(s, token_start(s, pos)).end, p)
        },
{
    let t = padded(s, p, pad);
    let k = pad.len() as int;
    let ws = CharClass::Whitespace;
    lemma_padded_index(s, p, pad);
    lemma_run_end_bounds(s, pos, ws);
    lemma_run_end_contents(s, pos, ws);
    let start = token_start(s, pos);
    assert(t[p] == pad[0]);
    assert(is_whitespace(pad[0]));
    if p <= start {
        assert forall|i: int| pos <= i < start + k implies ws.contains(#[trigger] t[i]) by {
            if i < p {
                assert(t[i] == s[i]);
                assert(ws.contains(s[i]));
            } else if i < p + k {
                assert(t[i] == pad[i - p]);
                assert(is_whitespace(pad[i - p]));
            } else {
                assert(t[(i - k) + k] == s[i - k]);
                assert(ws.contains(s[i - k]));
            }
        }
        if start < s.len() {
            assert(t[start + k] == s[start]);
            lemma_scan_at_shifted(t, s, k, start);
        }
        lemma_run_end_is(t, pos, ws, start + k);
    } else {
        lemma_run_end_prefix(t, s, p, pos, ws);
        let scan = scan_at(s, start);
        let c = s[start];
        lemma_scan_at_bounds(s, start);
        assert(between_tokens(s, scan.end, p));
        assert(t[start] == c);
        if start + 1 < p {
            assert(t[start + 1] == s[start + 1]);
        }
        if symbol(c) is None && c != '=' && c != '!' {
            if is_letter(c) {
                lemma_run_end_prefix(t, s, p, start + 1, CharClass::Letter);
                assert(t.subrange(start, scan.end) =~= s.subrange(start, scan.end));
            } else if is_digit(c) {
                lemma_run_end_prefix(t, s, p, start + 1, CharClass::Digit);
                assert(t.subrange(start, scan.end) =~= s.subrange(start, scan.end));
            }
        }
    }
}

proof fn lemma_padding_behind_cursor(s: Seq<char>, pos: int, p: int, pad: Seq<char>)
    requires
        0 <= pos <= p <= s.len(),
        between_tokens(s, pos, p),
        pad.len() > 0,
        forall|i: int| 0 <= i < pad.len() ==> is_whitespace(#[trigger] pad[i]),
    ensures
        token_stream(padded(s, p, pad), pos) == token_stream(s, pos),
    decreases s.len() - pos,
{
    let t = padded(s, p, pad);
    let k = pad.len() as int;
    lemma_padded_index(s, p, pad);
    lemma_padded_step(s, pos, p, pad);
    let start = token_start(s, pos);
    if p <= start {
        if start < s.len() {
            lemma_scan_at_bounds(s, start);
            lemma_token_stream_shifted(t, s, k, scan_at(s, start).end);
        }
    } else {
        lemma_padding_behind_cursor(s, scan_at(s, start).end, p, pad);
    }
}

proof fn lemma_between_tokens_shifted(t: Seq<char>, s: Seq<char>, k: int, a: int, q: int)
    requires
        0 <= k,
        0 <= a <= s.len(),
        t.len() == s.len() + k,
        forall|j: int| a <= j < s.len() ==> t[j + k] == #[trigger] s[j],
    ensures
        between_tokens(t, a + k, q + k) == between_tokens(s, a, q),
    decreases s.len() - a,
{
    lemma_run_end_shifted(t, s, k, a, CharClass::Whitespace);
    lemma_run_end_bounds(s, a, CharClass::Whitespace);
    let start = token_start(s, a);
    if start < s.len() {
        lemma_scan_at_shifted(t, s, k, start);
        lemma_scan_at_bounds(s, start);
        lemma_between_tokens_shifted(t, s, k, scan_at(s, start).end, q);
    }
}

proof fn lemma_positions_behind_cursor(s: Seq<char>, pos: int, p: int, pad: Seq<char>, q: int)
    requires
        0 <= pos <= p <= s.len(),
        between_tokens(s, pos, p),
        pad.len() > 0,
        forall|i: int| 0 <= i < pad.len() ==> is_whitespace(#[trigger] pad[i]),
        q <= s.len(),
        between_tokens(s, pos, q),
    ensures
        q <= p ==> between_tokens(padded(s, p, pad), pos, q),
        p <= q ==> between_tokens(padded(s, p, pad), pos, q + pad.len()),
    decreases s.len() - pos,
{
    let t = padded(s, p, pad);
    let k = pad.len() as int;
    lemma_padded_index(s, p, pad);
    lemma_padded_step(s, pos, p, pad);
    let start = token_start(s, pos);
    if p <= start {
        if start < q {
            lemma_scan_at_bounds(s, start);
            lemma_between_tokens_shifted(t, s, k, scan_at(s, start).end, q);
        }
    } else if start < q {
        lemma_positions_behind_cursor(s, scan_at(s, start).end, p, pad, q);
    }
}

/// Whitespace is transparent: inserting any run of whitespace characters at
/// a position between tokens leaves the sequence of tokens as it was.
pub proof fn whitespace_between_tokens_is_transparent(
    s: Seq<char>,
    pos: int,
    p: int,
    pad: Seq<char>,
)
    requires
        0 <= pos <= p <= s.len(),
        between_tokens(s, pos, p),
        forall|i: int| 0 <= i < pad.len() ==> is_whitespace(#[trigger] pad[i]),
    ensures
        token_stream(padded(s, p, pad), pos) == token_stream(s, pos),
{
    if pad.len() == 0 {
        assert(padded(s, p, pad) =~= s);
    } else {
        lemma_padding_behind_cursor(s, pos, p, pad);
    }
}

/// Padding keeps the places for more padding: a position between tokens is
/// still one in the padded text, moved back by the pad's length where it lay
/// behind the pad. So whitespace may be inserted at any number of positions
/// between tokens, one after the other.
pub proof fn padding_keeps_positions_between_tokens(
    s: Seq<char>,
    pos: int,
    p: int,
    pad: Seq<char>,
    q: int,
)
    requires
        0 <= pos <= p <= s.len(),
        between_tokens(s, pos, p),
        forall|i: int| 0 <= i < pad.len() ==> is_whitespace(#[trigger] pad[i]),
        q <= s.len(),
        between_tokens(s, pos, q),
    ensures
        q <= p ==> between_tokens(padded(s, p, pad), pos, q),
        p <= q ==> between_tokens(padded(s, p, pad), pos, q + pad.len()),
{
    if pad.len() == 0 {
        assert(padded(s, p, pad) =~= s);
    } else {
        lemma_positions_behind_cursor(s, pos, p, pad, q);
    }
}

/// The cursor itself and the end of the text always lie between tokens, so
/// whitespace may be put in front of a text and behind it.
pub proof fn ends_lie_between_tokens(s: Seq<char>, pos: int)
    requires
        0 <= pos <= s.len(),
    ensures
        between_tokens(s, pos, pos),
        between_tokens(s, pos, s.len() as int),
    decreases s.len() - pos,
{
    lemma_run_end_bounds(s, pos, CharClass::Whitespace);
    let start = token_start(s, pos);
    if start < s.len() {
        lemma_scan_at_bounds(s, start);
        ends_lie_between_tokens(s, scan_at(s, start).end);
    }
}

} // verus!
