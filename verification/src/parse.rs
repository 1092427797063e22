//! The circuit-description parser: a line-oriented text format, one
//! instruction per line (`input`, `not`, `and`, `xor`, `emit`), with
//! 1-based wire operands. The executable parser is proved to return
//! exactly the circuit that the mathematical parser (`parse_spec`)
//! assigns to the byte string, and every circuit it returns satisfies the
//! evaluators' well-formedness invariant.

use vstd::prelude::*;

use crate::circuit::{
    gate_wf, is_primary_input, wf, wire_available, wire_in, wire_produced, wires_disjoint,
    wires_distinct, wires_model, gates_model, Circuit, CircuitModel, Gate, GateModel, GateType,
};
use crate::errors::ParseError;

verus! {

/// A byte that separates tokens within a line: ASCII whitespace other than
/// the line break.
pub open spec fn is_space(c: u8) -> bool {
    c == 32 || c == 9 || c == 11 || c == 12 || c == 13
}

/// An ASCII decimal digit.
pub open spec fn is_digit(c: u8) -> bool {
    48 <= c <= 57
}

/// The token is a non-empty run of decimal digits.
pub open spec fn is_dec_token(s: Seq<u8>) -> bool {
    s.len() >= 1 && forall|i: int| 0 <= i < s.len() ==> is_digit(#[trigger] s[i])
}

/// The value of a digit string, most significant digit first.
pub open spec fn dec_val(s: Seq<u8>) -> int
    decreases s.len(),
{
    if s.len() == 0 {
        0
    } else {
        dec_val(s.drop_last()) * 10 + (s.last() as int - 48)
    }
}

/// Extending a digit string on the right never decreases its value.
proof fn lemma_dec_val_prefix_le(s: Seq<u8>, i: int)
    requires
        0 <= i <= s.len(),
        forall|t: int| 0 <= t < s.len() ==> is_digit(#[trigger] s[t]),
    ensures
        dec_val(s.subrange(0, i)) <= dec_val(s),
    decreases s.len() - i,
{
    if i == s.len() {
        assert(s.subrange(0, i) =~= s);
    } else {
        lemma_dec_val_prefix_le(s, i + 1);
        let p = s.subrange(0, i);
        let q = s.subrange(0, i + 1);
        assert(q.drop_last() =~= p);
        assert(q.last() == s[i]);
        assert(dec_val(q) == dec_val(p) * 10 + (s[i] as int - 48));
        assert(forall|t: int| 0 <= t < p.len() ==> is_digit(#[trigger] p[t]));
        lemma_dec_val_nonneg(p);
        assert(dec_val(p) * 10 >= dec_val(p)) by {
            assert(dec_val(p) * 10 == dec_val(p) + dec_val(p) * 9);
            assert(dec_val(p) * 9 >= 0) by (nonlinear_arith)
                requires
                    dec_val(p) >= 0,
            ;
        }
    }
}

/// A digit string's value is non-negative (when its bytes are digits).
proof fn lemma_dec_val_nonneg(s: Seq<u8>)
    requires
        forall|t: int| 0 <= t < s.len() ==> is_digit(#[trigger] s[t]),
    ensures
        dec_val(s) >= 0,
    decreases s.len(),
{
    if s.len() > 0 {
        assert(forall|t: int|
            0 <= t < s.drop_last().len() ==> is_digit(#[trigger] s.drop_last()[t]));
        lemma_dec_val_nonneg(s.drop_last());
        assert(dec_val(s.drop_last()) * 10 >= 0) by (nonlinear_arith)
            requires dec_val(s.drop_last()) >= 0;
    }
}

/// The line-break byte.
pub open spec fn is_newline(c: u8) -> bool {
    c == 10
}

/// The length of the first line of `s`: everything before the first line
/// break.
pub open spec fn line_len(s: Seq<u8>) -> int
    decreases s.len(),
{
    if s.len() == 0 {
        0
    } else if is_newline(s[0]) {
        0
    } else {
        1 + line_len(s.subrange(1, s.len() as int))
    }
}

/// What `line_len` returns: the bytes before it are not line breaks and
/// the byte at it (if any) is one.
proof fn lemma_line_len(s: Seq<u8>)
    ensures
        0 <= line_len(s) <= s.len(),
        forall|i: int| 0 <= i < line_len(s) ==> !is_newline(#[trigger] s[i]),
        line_len(s) < s.len() ==> is_newline(s[line_len(s)]),
    decreases s.len(),
{
    if s.len() > 0 && !is_newline(s[0]) {
        let r = s.subrange(1, s.len() as int);
        lemma_line_len(r);
        assert forall|i: int| 0 <= i < line_len(s) implies !is_newline(#[trigger] s[i]) by {
            if i >= 1 {
                assert(s[i] == r[i - 1]);
            }
        }
        if line_len(s) < s.len() {
            assert(s[line_len(s)] == r[line_len(r)]);
        }
    }
}

/// A length with the shape of `line_len`'s result is `line_len`.
proof fn lemma_line_len_is(s: Seq<u8>, k: int)
    requires
        0 <= k <= s.len(),
        forall|i: int| 0 <= i < k ==> !is_newline(#[trigger] s[i]),
        k < s.len() ==> is_newline(s[k]),
    ensures
        line_len(s) == k,
{
    lemma_line_len(s);
    if line_len(s) < k {
        assert(!is_newline(s[line_len(s)]));
    }
    if k < line_len(s) {
        assert(!is_newline(s[k]));
    }
}

/// The length of the first token of `s`: everything before the first
/// space.
pub open spec fn token_len(s: Seq<u8>) -> int
    decreases s.len(),
{
    if s.len() == 0 {
        0
    } else if is_space(s[0]) {
        0
    } else {
        1 + token_len(s.subrange(1, s.len() as int))
    }
}

/// What `token_len` returns: the bytes before it are not spaces and the
/// byte at it (if any) is one.
proof fn lemma_token_len(s: Seq<u8>)
    ensures
        0 <= token_len(s) <= s.len(),
        forall|i: int| 0 <= i < token_len(s) ==> !is_space(#[trigger] s[i]),
        token_len(s) < s.len() ==> is_space(s[token_len(s)]),
    decreases s.len(),
{
    if s.len() > 0 && !is_space(s[0]) {
        let r = s.subrange(1, s.len() as int);
        lemma_token_len(r);
        assert forall|i: int| 0 <= i < token_len(s) implies !is_space(#[trigger] s[i]) by {
            if i >= 1 {
                assert(s[i] == r[i - 1]);
            }
        }
        if token_len(s) < s.len() {
            assert(s[token_len(s)] == r[token_len(r)]);
        }
    }
}

/// A length with the shape of `token_len`'s result is `token_len`.
proof fn lemma_token_len_is(s: Seq<u8>, k: int)
    requires
        0 <= k <= s.len(),
        forall|i: int| 0 <= i < k ==> !is_space(#[trigger] s[i]),
        k < s.len() ==> is_space(s[k]),
    ensures
        token_len(s) == k,
{
    lemma_token_len(s);
    if token_len(s) < k {
        assert(!is_space(s[token_len(s)]));
    }
    if k < token_len(s) {
        assert(!is_space(s[k]));
    }
}

/// The lines of a byte string, split at line breaks. A final line break
/// terminates the last line rather than opening an empty one.
pub open spec fn split_lines(s: Seq<u8>) -> Seq<Seq<u8>>
    decreases s.len(),
        via split_lines_decreases
{
    if s.len() == 0 {
        Seq::empty()
    } else {
        let k = line_len(s);
        if k == s.len() {
            seq![s]
        } else {
            seq![s.subrange(0, k)] + split_lines(s.subrange(k + 1, s.len() as int))
        }
    }
}

#[via_fn]
proof fn split_lines_decreases(s: Seq<u8>) {
    lemma_line_len(s);
}

/// The whitespace-separated tokens of one line.
pub open spec fn tokenize(s: Seq<u8>) -> Seq<Seq<u8>>
    decreases s.len(),
        via tokenize_decreases
{
    if s.len() == 0 {
        Seq::empty()
    } else if is_space(s[0]) {
        tokenize(s.subrange(1, s.len() as int))
    } else {
        let k = token_len(s);
        if k == s.len() {
            seq![s]
        } else {
            seq![s.subrange(0, k)] + tokenize(s.subrange(k, s.len() as int))
        }
    }
}

#[via_fn]
proof fn tokenize_decreases(s: Seq<u8>) {
    lemma_token_len(s);
}

/// Parse a decimal token. Returns the value exactly when the token is a
/// non-empty digit string whose value fits a `usize`.
fn parse_dec(tok: &Vec<u8>) -> (r: Option<usize>)
    ensures
        match r {
            Some(v) => is_dec_token(tok@) && dec_val(tok@) == v as int,
            None => !(is_dec_token(tok@) && dec_val(tok@) <= usize::MAX as int),
        },
{
    if tok.len() == 0 {
        return None;
    }
    let mut i: usize = 0;
    while i < tok.len()
        invariant
            i <= tok.len(),
            forall|t: int| 0 <= t < i ==> is_digit(#[trigger] tok@[t]),
        decreases tok.len() - i,
    {
        let c = tok[i];
        if c < 48 || c > 57 {
            return None;
        }
        i += 1;
    }
    let ghost s = tok@;
    let mut val: usize = 0;
    let mut i: usize = 0;
    while i < tok.len()
        invariant
            s == tok@,
            is_dec_token(s),
            i <= tok.len(),
            val as int == dec_val(s.subrange(0, i as int)),
        decreases tok.len() - i,
    {
        let c = tok[i];
        let wide: u128 = (val as u128) * 10 + ((c - 48) as u128);
        proof {
            let p = s.subrange(0, i as int);
            let q = s.subrange(0, i + 1);
            assert(q.drop_last() =~= p);
            assert(q.last() == s[i as int]);
            assert(wide as int == dec_val(q));
        }
        if wide > (usize::MAX as u128) {
            proof {
                lemma_dec_val_prefix_le(s, i + 1);
            }
            return None;
        }
        val = wide as usize;
        i += 1;
    }
    proof {
        assert(s.subrange(0, s.len() as int) =~= s);
    }
    Some(val)
}

/// Split the source into its lines.
fn split_into_lines(src: &[u8]) -> (r: Vec<Vec<u8>>)
    ensures
        r.deep_view() == split_lines(src@),
{
    let ghost all = src@;
    let mut lines: Vec<Vec<u8>> = Vec::new();
    let mut pos: usize = 0;
    proof {
        assert(all.subrange(0, all.len() as int) =~= all);
        assert(lines.deep_view() + split_lines(all) =~= split_lines(all));
    }
    while pos < src.len()
        invariant
            all == src@,
            pos <= src.len(),
            lines.deep_view() + split_lines(all.subrange(pos as int, all.len() as int))
                == split_lines(all),
        decreases src.len() - pos,
    {
        let ghost rem = all.subrange(pos as int, all.len() as int);
        let ghost old_lines = lines.deep_view();
        let mut line: Vec<u8> = Vec::new();
        let mut e: usize = pos;
        while e < src.len() && src[e] != 10
            invariant
                all == src@,
                pos <= e <= src.len(),
                line@ == all.subrange(pos as int, e as int),
                forall|t: int| pos <= t < e ==> !is_newline(#[trigger] all[t]),
            decreases src.len() - e,
        {
            line.push(src[e]);
            proof {
                assert(line@ =~= all.subrange(pos as int, e + 1));
            }
            e += 1;
        }
        proof {
            assert(e == src.len() || is_newline(all[e as int]));
            assert forall|i: int| 0 <= i < e - pos implies !is_newline(#[trigger] rem[i]) by {
                assert(rem[i] == all[pos + i]);
            }
            if e < src.len() {
                assert(rem[e - pos] == all[e as int]);
            }
            lemma_line_len_is(rem, e - pos);
            assert(line@ =~= rem.subrange(0, e - pos));
        }
        lines.push(line);
        proof {
            assert(lines.deep_view() =~= old_lines.push(line@)) by {
                assert forall|i: int|
                    0 <= i < lines.deep_view().len()
                        implies lines.deep_view()[i] == old_lines.push(line@)[i] by {
                    assert(lines.deep_view()[i] =~= lines@[i].deep_view());
                    if i < old_lines.len() {
                        assert(lines@[i] == lines@.drop_last()[i]);
                    } else {
                        assert(lines@[i] == line);
                        assert(line.deep_view() =~= line@);
                    }
                }
            }
        }
        let ghost p0 = pos as int;
        if e < src.len() {
            pos = e + 1;
        } else {
            pos = e;
        }
        proof {
            let rem2 = all.subrange(pos as int, all.len() as int);
            if e < src.len() {
                assert(rem.subrange(e - p0 + 1, rem.len() as int) =~= rem2);
                assert(split_lines(rem) == seq![line@] + split_lines(rem2));
            } else {
                assert(rem2 =~= Seq::<u8>::empty());
                assert(line@ =~= rem);
                assert(split_lines(rem) == seq![line@]);
                assert(split_lines(rem2) == Seq::<Seq<u8>>::empty());
            }
            assert(lines.deep_view() + split_lines(rem2) =~= (old_lines + split_lines(rem)));
        }
    }
    proof {
        let rem = all.subrange(pos as int, all.len() as int);
        assert(rem =~= Seq::<u8>::empty());
        assert(split_lines(rem) == Seq::<Seq<u8>>::empty());
        assert(lines.deep_view() =~= lines.deep_view() + split_lines(rem));
    }
    lines
}

/// Split one line into its whitespace-separated tokens.
fn tokenize_line(line: &Vec<u8>) -> (r: Vec<Vec<u8>>)
    ensures
        r.deep_view() == tokenize(line@),
{
    let ghost all = line@;
    let mut toks: Vec<Vec<u8>> = Vec::new();
    let mut pos: usize = 0;
    proof {
        assert(all.subrange(0, all.len() as int) =~= all);
        assert(toks.deep_view() + tokenize(all) =~= tokenize(all));
    }
    while pos < line.len()
        invariant
            all == line@,
            pos <= line.len(),
            toks.deep_view() + tokenize(all.subrange(pos as int, all.len() as int))
                == tokenize(all),
        decreases line.len() - pos,
    {
        let ghost rem = all.subrange(pos as int, all.len() as int);
        let c = line[pos];
        if c == 32 || c == 9 || c == 11 || c == 12 || c == 13 {
            proof {
                assert(rem[0] == all[pos as int]);
                assert(is_space(rem[0]));
                assert(rem.subrange(1, rem.len() as int)
                    =~= all.subrange(pos + 1, all.len() as int));
            }
            pos += 1;
        } else {
            let ghost old_toks = toks.deep_view();
            let mut tok: Vec<u8> = Vec::new();
            let mut e: usize = pos;
            while e < line.len() && !(line[e] == 32 || line[e] == 9 || line[e] == 11
                || line[e] == 12 || line[e] == 13)
                invariant
                    all == line@,
                    pos <= e <= line.len(),
                    tok@ == all.subrange(pos as int, e as int),
                    forall|t: int| pos <= t < e ==> !is_space(#[trigger] all[t]),
                decreases line.len() - e,
            {
                tok.push(line[e]);
                proof {
                    assert(tok@ =~= all.subrange(pos as int, e + 1));
                }
                e += 1;
            }
            proof {
                assert(e == line.len() || is_space(all[e as int]));
                assert forall|i: int| 0 <= i < e - pos implies !is_space(#[trigger] rem[i]) by {
                    assert(rem[i] == all[pos + i]);
                }
                if e < line.len() {
                    assert(rem[e - pos] == all[e as int]);
                }
                lemma_token_len_is(rem, e - pos);
                assert(tok@ =~= rem.subrange(0, e - pos));
                assert(!is_space(rem[0]));
            }
            toks.push(tok);
            proof {
                assert(toks.deep_view() =~= old_toks.push(tok@)) by {
                    assert forall|i: int|
                        0 <= i < toks.deep_view().len()
                            implies toks.deep_view()[i] == old_toks.push(tok@)[i] by {
                        assert(toks.deep_view()[i] =~= toks@[i].deep_view());
                        if i < old_toks.len() {
                            assert(toks@[i] == toks@.drop_last()[i]);
                        } else {
                            assert(toks@[i] == tok);
                            assert(tok.deep_view() =~= tok@);
                        }
                    }
                }
            }
            let ghost p0 = pos as int;
            pos = e;
            proof {
                let rem2 = all.subrange(pos as int, all.len() as int);
                if e < line.len() {
                    assert(rem.subrange(e - p0, rem.len() as int) =~= rem2);
                    assert(tokenize(rem) == seq![tok@] + tokenize(rem2));
                } else {
                    assert(rem2 =~= Seq::<u8>::empty());
                    assert(tok@ =~= rem);
                    assert(tokenize(rem) == seq![tok@]);
                    assert(tokenize(rem2) == Seq::<Seq<u8>>::empty());
                }
                assert(toks.deep_view() + tokenize(rem2) =~= (old_toks + tokenize(rem)));
            }
        }
    }
    proof {
        let rem = all.subrange(pos as int, all.len() as int);
        assert(rem =~= Seq::<u8>::empty());
        assert(tokenize(rem) == Seq::<Seq<u8>>::empty());
        assert(toks.deep_view() =~= toks.deep_view() + tokenize(rem));
    }
    toks
}

/// The bytes of the keyword `input`.
pub open spec fn kw_input() -> Seq<u8> {
    seq![105u8, 110u8, 112u8, 117u8, 116u8]
}

/// The bytes of the keyword `not`.
pub open spec fn kw_not() -> Seq<u8> {
    seq![110u8, 111u8, 116u8]
}

/// The bytes of the keyword `and`.
pub open spec fn kw_and() -> Seq<u8> {
    seq![97u8, 110u8, 100u8]
}

/// The bytes of the keyword `xor`.
pub open spec fn kw_xor() -> Seq<u8> {
    seq![120u8, 111u8, 114u8]
}

/// The bytes of the keyword `emit`.
pub open spec fn kw_emit() -> Seq<u8> {
    seq![101u8, 109u8, 105u8, 116u8]
}

/// The bytes of the input-group tag `A`.
pub open spec fn tag_a() -> Seq<u8> {
    seq![65u8]
}

/// A wire operand is good when it is a decimal number naming an
/// already-declared wire (operands are 1-based).
pub open spec fn operand_ok(t: Seq<u8>, n_wires: int) -> bool {
    is_dec_token(t) && 1 <= dec_val(t) <= n_wires
}

/// One line of the description, applied to the circuit built so far.
/// `input` declares the next wire and tags it for group A exactly when its
/// second token is `A`; `not`, `and` and `xor` declare the next wire as a
/// gate output; `emit` appends an already-declared wire to the outputs;
/// a blank line changes nothing; anything else is an error (`None`).
/// Tokens beyond the ones an instruction reads are ignored.
pub open spec fn step_line(m: CircuitModel, toks: Seq<Seq<u8>>) -> Option<CircuitModel> {
    if toks.len() == 0 {
        Some(m)
    } else if toks[0] == kw_input() {
        if toks.len() >= 2 && toks[1] == tag_a() {
            Some(CircuitModel { n_wires: m.n_wires + 1, a_wires: m.a_wires.push(m.n_wires), ..m })
        } else {
            Some(CircuitModel { n_wires: m.n_wires + 1, b_wires: m.b_wires.push(m.n_wires), ..m })
        }
    } else if toks[0] == kw_not() {
        if toks.len() >= 2 && operand_ok(toks[1], m.n_wires) {
            Some(CircuitModel {
                n_wires: m.n_wires + 1,
                gates: m.gates.push(GateModel {
                    op: GateType::Not,
                    ins: seq![dec_val(toks[1]) - 1],
                    out: m.n_wires,
                }),
                ..m
            })
        } else {
            None
        }
    } else if toks[0] == kw_and() || toks[0] == kw_xor() {
        if toks.len() >= 3 && operand_ok(toks[1], m.n_wires) && operand_ok(toks[2], m.n_wires) {
            Some(CircuitModel {
                n_wires: m.n_wires + 1,
                gates: m.gates.push(GateModel {
                    op: if toks[0] == kw_and() {
                        GateType::And
                    } else {
                        GateType::Xor
                    },
                    ins: seq![dec_val(toks[1]) - 1, dec_val(toks[2]) - 1],
                    out: m.n_wires,
                }),
                ..m
            })
        } else {
            None
        }
    } else if toks[0] == kw_emit() {
        if toks.len() >= 2 && operand_ok(toks[1], m.n_wires) {
            Some(CircuitModel { outputs: m.outputs.push(dec_val(toks[1]) - 1), ..m })
        } else {
            None
        }
    } else {
        None
    }
}

/// The circuit with no wires at all: the parser's starting point.
pub open spec fn empty_model() -> CircuitModel {
    CircuitModel {
        n_wires: 0,
        gates: Seq::empty(),
        outputs: Seq::empty(),
        a_wires: Seq::empty(),
        b_wires: Seq::empty(),
    }
}

/// Run the parser over the lines from `i` on. An error carries the 1-based
/// number of the first bad line.
pub open spec fn parse_lines(m: CircuitModel, lines: Seq<Seq<u8>>, i: int) -> Result<
    CircuitModel,
    int,
>
    decreases lines.len() - i
        when 0 <= i <= lines.len()
{
    if i >= lines.len() {
        Ok(m)
    } else {
        match step_line(m, tokenize(lines[i])) {
            Some(m2) => parse_lines(m2, lines, i + 1),
            None => Err(i + 1),
        }
    }
}

/// The mathematical parser: the circuit a byte string describes, or the
/// 1-based number of its first bad line.
pub open spec fn parse_spec(src: Seq<u8>) -> Result<CircuitModel, int> {
    parse_lines(empty_model(), split_lines(src), 0)
}

/// The parser's invariant: the circuit built so far is well formed, and
/// every declared wire is a primary input or a gate output (so any wire an
/// operand can name is available).
pub open spec fn parser_inv(m: CircuitModel) -> bool {
    &&& wf(m)
    &&& forall|w: int| 0 <= w < m.n_wires ==> #[trigger] wire_available(m, w)
}

/// Membership in a pushed wire list.
proof fn lemma_wire_in_push(s: Seq<int>, x: int, w: int)
    ensures
        wire_in(s.push(x), w) == (wire_in(s, w) || w == x),
{
    if wire_in(s, w) {
        let j = choose|j: int| 0 <= j < s.len() && s[j] == w;
        assert(s.push(x)[j] == w);
    }
    assert(s.push(x)[s.len() as int] == x);
    if wire_in(s.push(x), w) && w != x {
        let j = choose|j: int| 0 <= j < s.push(x).len() && s.push(x)[j] == w;
        assert(j != s.len());
        assert(s[j] == w);
    }
}

/// Production by a pushed gate list.
proof fn lemma_produced_push(m: CircuitModel, m2: CircuitModel, g: GateModel, w: int)
    requires
        m2.gates == m.gates.push(g),
    ensures
        wire_produced(m2, w) == (wire_produced(m, w) || g.out == w),
{
    if wire_produced(m, w) {
        let i = choose|i: int| 0 <= i < m.gates.len() && m.gates[i].out == w;
        assert(m2.gates[i].out == w);
        assert(wire_produced(m2, w));
    }
    assert(m2.gates[m.gates.len() as int] == g);
    if wire_produced(m2, w) && g.out != w {
        let i = choose|i: int| 0 <= i < m2.gates.len() && m2.gates[i].out == w;
        assert(i != m.gates.len());
        assert(m.gates[i].out == w);
    }
}

/// Declaring a new input wire preserves the parser's invariant.
proof fn lemma_input_push_inv(m: CircuitModel, is_a: bool)
    requires
        parser_inv(m),
    ensures
        is_a ==> parser_inv(
            CircuitModel { n_wires: m.n_wires + 1, a_wires: m.a_wires.push(m.n_wires), ..m },
        ),
        !is_a ==> parser_inv(
            CircuitModel { n_wires: m.n_wires + 1, b_wires: m.b_wires.push(m.n_wires), ..m },
        ),
{
    let n = m.n_wires;
    let m2 = if is_a {
        CircuitModel { n_wires: n + 1, a_wires: m.a_wires.push(n), ..m }
    } else {
        CircuitModel { n_wires: n + 1, b_wires: m.b_wires.push(n), ..m }
    };
    assert forall|w: int| is_primary_input(m, w) || w == n implies is_primary_input(m2, w) by {
        lemma_wire_in_push(m.a_wires, n, w);
        lemma_wire_in_push(m.b_wires, n, w);
    }
    assert forall|w: int|
        is_primary_input(m2, w) implies (is_primary_input(m, w) || w == n) by {
        lemma_wire_in_push(m.a_wires, n, w);
        lemma_wire_in_push(m.b_wires, n, w);
    }
    assert(m2.gates == m.gates);
    assert forall|w: int| wire_produced(m2, w) == wire_produced(m, w) by {}
    assert forall|i: int| 0 <= i < m2.gates.len() implies #[trigger] gate_wf(m2, i) by {
        assert(gate_wf(m, i));
        let g = m2.gates[i];
        assert forall|j: int| 0 <= j < g.ins.len() implies wire_available(m2, #[trigger] g.ins[j]) by {
            assert(wire_available(m, g.ins[j]));
        }
    }
    assert forall|i: int|
        0 <= i < m2.gates.len() implies !is_primary_input(m2, #[trigger] m2.gates[i].out) by {
        assert(gate_wf(m, i));
        assert(m.gates[i].out < n);
        assert(!is_primary_input(m, m.gates[i].out));
    }
    if is_a {
        assert(wires_distinct(m2.a_wires)) by {
            assert forall|i: int, j: int|
                0 <= i < j < m2.a_wires.len() implies m2.a_wires[i] != m2.a_wires[j] by {
                if j < m.a_wires.len() {
                    assert(m.a_wires[i] != m.a_wires[j]);
                } else {
                    assert(m2.a_wires[j] == n);
                    assert(m2.a_wires[i] == m.a_wires[i]);
                    assert(m.a_wires[i] < n);
                }
            }
        }
        assert(wires_disjoint(m2.a_wires, m2.b_wires)) by {
            assert forall|i: int, j: int|
                0 <= i < m2.a_wires.len() && 0 <= j < m2.b_wires.len()
                    implies m2.a_wires[i] != m2.b_wires[j] by {
                if i < m.a_wires.len() {
                    assert(m.a_wires[i] != m.b_wires[j]);
                } else {
                    assert(m2.a_wires[i] == n);
                    assert(m.b_wires[j] < n);
                }
            }
        }
    } else {
        assert(wires_distinct(m2.b_wires)) by {
            assert forall|i: int, j: int|
                0 <= i < j < m2.b_wires.len() implies m2.b_wires[i] != m2.b_wires[j] by {
                if j < m.b_wires.len() {
                    assert(m.b_wires[i] != m.b_wires[j]);
                } else {
                    assert(m2.b_wires[j] == n);
                    assert(m2.b_wires[i] == m.b_wires[i]);
                    assert(m.b_wires[i] < n);
                }
            }
        }
        assert(wires_disjoint(m2.a_wires, m2.b_wires)) by {
            assert forall|i: int, j: int|
                0 <= i < m2.a_wires.len() && 0 <= j < m2.b_wires.len()
                    implies m2.a_wires[i] != m2.b_wires[j] by {
                if j < m.b_wires.len() {
                    assert(m.a_wires[i] != m.b_wires[j]);
                } else {
                    assert(m2.b_wires[j] == n);
                    assert(m.a_wires[i] < n);
                }
            }
        }
    }
    assert forall|i: int|
        0 <= i < m2.outputs.len() implies wire_available(m2, #[trigger] m2.outputs[i]) by {
        assert(wire_available(m, m.outputs[i]));
    }
    assert forall|w: int| 0 <= w < m2.n_wires implies #[trigger] wire_available(m2, w) by {
        if w < n {
            assert(wire_available(m, w));
        } else {
            assert(is_primary_input(m2, n));
        }
    }
}

/// Declaring a new gate (whose inputs name already-declared wires and
/// whose output is the next wire) preserves the parser's invariant.
proof fn lemma_gate_push_inv(m: CircuitModel, g: GateModel)
    requires
        parser_inv(m),
        g.ins.len() == crate::circuit::gate_arity(g.op),
        forall|j: int| 0 <= j < g.ins.len() ==> 0 <= #[trigger] g.ins[j] < m.n_wires,
        g.out == m.n_wires,
    ensures
        parser_inv(CircuitModel { n_wires: m.n_wires + 1, gates: m.gates.push(g), ..m }),
{
    let n = m.n_wires;
    let m2 = CircuitModel { n_wires: n + 1, gates: m.gates.push(g), ..m };
    assert(m2.gates[m.gates.len() as int] == g);
    assert forall|w: int| wire_available(m, w) implies wire_available(m2, w) by {
        lemma_produced_push(m, m2, g, w);
    }
    assert forall|i: int| 0 <= i < m2.gates.len() implies #[trigger] gate_wf(m2, i) by {
        if i < m.gates.len() {
            assert(gate_wf(m, i));
            assert(m2.gates[i] == m.gates[i]);
            assert forall|j: int|
                0 <= j < m2.gates[i].ins.len()
                    implies wire_available(m2, #[trigger] m2.gates[i].ins[j]) by {
                assert(wire_available(m, m.gates[i].ins[j]));
                lemma_produced_push(m, m2, g, m.gates[i].ins[j]);
            }
        } else {
            assert(m2.gates[i] == g);
            assert forall|j: int|
                0 <= j < g.ins.len() implies wire_available(m2, #[trigger] g.ins[j]) by {
                assert(wire_available(m, g.ins[j]));
                lemma_produced_push(m, m2, g, g.ins[j]);
            }
        }
    }
    assert forall|i: int, j: int|
        0 <= i < j < m2.gates.len() implies m2.gates[i].out < m2.gates[j].out by {
        if j < m.gates.len() {
            assert(m.gates[i].out < m.gates[j].out);
        } else {
            assert(gate_wf(m, i));
            assert(m.gates[i].out < n);
            assert(m2.gates[j] == g);
        }
    }
    assert forall|i: int|
        0 <= i < m2.gates.len() implies !is_primary_input(m2, #[trigger] m2.gates[i].out) by {
        if i < m.gates.len() {
            assert(!is_primary_input(m, m.gates[i].out));
        } else {
            assert(m2.gates[i].out == n);
            assert(!is_primary_input(m, n)) by {
                if wire_in(m.a_wires, n) {
                    let j = choose|j: int| 0 <= j < m.a_wires.len() && m.a_wires[j] == n;
                    assert(m.a_wires[j] < n);
                }
                if wire_in(m.b_wires, n) {
                    let j = choose|j: int| 0 <= j < m.b_wires.len() && m.b_wires[j] == n;
                    assert(m.b_wires[j] < n);
                }
            }
        }
    }
    assert forall|i: int|
        0 <= i < m2.outputs.len() implies wire_available(m2, #[trigger] m2.outputs[i]) by {
        assert(wire_available(m, m.outputs[i]));
        lemma_produced_push(m, m2, g, m.outputs[i]);
    }
    assert forall|w: int| 0 <= w < m2.n_wires implies #[trigger] wire_available(m2, w) by {
        if w < n {
            assert(wire_available(m, w));
            lemma_produced_push(m, m2, g, w);
        } else {
            lemma_produced_push(m, m2, g, w);
        }
    }
}

/// Appending an already-declared wire to the outputs preserves the
/// parser's invariant.
proof fn lemma_emit_push_inv(m: CircuitModel, w: int)
    requires
        parser_inv(m),
        0 <= w < m.n_wires,
    ensures
        parser_inv(CircuitModel { outputs: m.outputs.push(w), ..m }),
{
    let m2 = CircuitModel { outputs: m.outputs.push(w), ..m };
    assert forall|i: int| 0 <= i < m2.gates.len() implies #[trigger] gate_wf(m2, i) by {
        assert(gate_wf(m, i));
        assert forall|j: int|
            0 <= j < m2.gates[i].ins.len()
                implies wire_available(m2, #[trigger] m2.gates[i].ins[j]) by {
            assert(wire_available(m, m.gates[i].ins[j]));
        }
    }
    assert forall|i: int|
        0 <= i < m2.gates.len() implies !is_primary_input(m2, #[trigger] m2.gates[i].out) by {
        assert(!is_primary_input(m, m.gates[i].out));
    }
    assert(m2.outputs[m.outputs.len() as int] == w);
    assert forall|i: int|
        0 <= i < m2.outputs.len() implies 0 <= #[trigger] m2.outputs[i] < m2.n_wires by {
        if i < m.outputs.len() {
            assert(0 <= m.outputs[i] < m.n_wires);
        }
    }
    assert forall|i: int|
        0 <= i < m2.outputs.len() implies wire_available(m2, #[trigger] m2.outputs[i]) by {
        if i < m.outputs.len() {
            assert(wire_available(m, m.outputs[i]));
        } else {
            assert(m2.outputs[i] == w);
            assert(wire_available(m, w));
        }
    }
    assert forall|x: int| 0 <= x < m2.n_wires implies #[trigger] wire_available(m2, x) by {
        assert(wire_available(m, x));
    }
}

/// Is the token the keyword `input`?
fn tok_is_kw_input(tok: &Vec<u8>) -> (r: bool)
    ensures
        r == (tok@ == kw_input()),
{
    let r = tok.len() == 5 && tok[0] == 105 && tok[1] == 110 && tok[2] == 112 && tok[3] == 117
        && tok[4] == 116;
    proof {
        if r {
            assert(tok@ =~= kw_input());
        } else if tok@ == kw_input() {
            assert(tok@.len() == 5 && tok@[0] == 105 && tok@[1] == 110 && tok@[2] == 112
                && tok@[3] == 117 && tok@[4] == 116);
        }
    }
    r
}

/// Is the token the keyword `not`?
fn tok_is_kw_not(tok: &Vec<u8>) -> (r: bool)
    ensures
        r == (tok@ == kw_not()),
{
    let r = tok.len() == 3 && tok[0] == 110 && tok[1] == 111 && tok[2] == 116;
    proof {
        if r {
            assert(tok@ =~= kw_not());
        } else if tok@ == kw_not() {
            assert(tok@.len() == 3 && tok@[0] == 110 && tok@[1] == 111 && tok@[2] == 116);
        }
    }
    r
}

/// Is the token the keyword `and`?
fn tok_is_kw_and(tok: &Vec<u8>) -> (r: bool)
    ensures
        r == (tok@ == kw_and()),
{
    let r = tok.len() == 3 && tok[0] == 97 && tok[1] == 110 && tok[2] == 100;
    proof {
        if r {
            assert(tok@ =~= kw_and());
        } else if tok@ == kw_and() {
            assert(tok@.len() == 3 && tok@[0] == 97 && tok@[1] == 110 && tok@[2] == 100);
        }
    }
    r
}

/// Is the token the keyword `xor`?
fn tok_is_kw_xor(tok: &Vec<u8>) -> (r: bool)
    ensures
        r == (tok@ == kw_xor()),
{
    let r = tok.len() == 3 && tok[0] == 120 && tok[1] == 111 && tok[2] == 114;
    proof {
        if r {
            assert(tok@ =~= kw_xor());
        } else if tok@ == kw_xor() {
            assert(tok@.len() == 3 && tok@[0] == 120 && tok@[1] == 111 && tok@[2] == 114);
        }
    }
    r
}

/// Is the token the keyword `emit`?
fn tok_is_kw_emit(tok: &Vec<u8>) -> (r: bool)
    ensures
        r == (tok@ == kw_emit()),
{
    let r = tok.len() == 4 && tok[0] == 101 && tok[1] == 109 && tok[2] == 105 && tok[3] == 116;
    proof {
        if r {
            assert(tok@ =~= kw_emit());
        } else if tok@ == kw_emit() {
            assert(tok@.len() == 4 && tok@[0] == 101 && tok@[1] == 109 && tok@[2] == 105
                && tok@[3] == 116);
        }
    }
    r
}

/// Is the token the input-group tag `A`?
fn tok_is_tag_a(tok: &Vec<u8>) -> (r: bool)
    ensures
        r == (tok@ == tag_a()),
{
    let r = tok.len() == 1 && tok[0] == 65;
    proof {
        if r {
            assert(tok@ =~= tag_a());
        } else if tok@ == tag_a() {
            assert(tok@.len() == 1 && tok@[0] == 65);
        }
    }
    r
}

/// Parse a 1-based wire operand against the wires declared so far,
/// returning the 0-based wire index exactly when the operand is good.
fn parse_operand(tok: &Vec<u8>, n_wires: usize) -> (r: Option<usize>)
    ensures
        match r {
            Some(w) => operand_ok(tok@, n_wires as int) && w as int == dec_val(tok@) - 1,
            None => !operand_ok(tok@, n_wires as int),
        },
{
    match parse_dec(tok) {
        Some(v) => {
            if 1 <= v && v <= n_wires {
                Some(v - 1)
            } else {
                None
            }
        },
        None => None,
    }
}

/// The circuit a parser state describes.
pub open spec fn state_model(
    n_wires: usize,
    gates: Seq<Gate>,
    outputs: Seq<usize>,
    a: Seq<usize>,
    b: Seq<usize>,
) -> CircuitModel {
    CircuitModel {
        n_wires: n_wires as int,
        gates: gates_model(gates),
        outputs: wires_model(outputs),
        a_wires: wires_model(a),
        b_wires: wires_model(b),
    }
}

impl Circuit {
    /// Parse a circuit description. Returns the circuit the byte string
    /// describes — well formed by construction — or a `ParseError` naming
    /// the first bad line: an unknown instruction keyword, a missing
    /// operand, an operand that is not a decimal number, or a reference to
    /// a wire that has not been declared yet.
    pub fn from_source(src: &[u8]) -> (r: Result<Circuit, ParseError>)
        ensures
            match r {
                Ok(c) => parse_spec(src@) == Ok::<CircuitModel, int>(c@) && wf(c@),
                Err(e) => parse_spec(src@) == Err::<CircuitModel, int>(e.line as int),
            },
    {
        let lines = split_into_lines(src);
        let ghost lv = lines.deep_view();
        let mut n_wires: usize = 0;
        let mut gates: Vec<Gate> = Vec::new();
        let mut outputs: Vec<usize> = Vec::new();
        let mut a_input_wires: Vec<usize> = Vec::new();
        let mut b_input_wires: Vec<usize> = Vec::new();
        let mut i: usize = 0;
        proof {
            assert(parser_inv(empty_model()));
            assert(state_model(0, gates@, outputs@, a_input_wires@, b_input_wires@)
                =~= empty_model()) by {
                assert(gates_model(gates@) =~= Seq::<GateModel>::empty());
                assert(wires_model(outputs@) =~= Seq::<int>::empty());
                assert(wires_model(a_input_wires@) =~= Seq::<int>::empty());
                assert(wires_model(b_input_wires@) =~= Seq::<int>::empty());
            }
        }
        while i < lines.len()
            invariant
                lv == lines.deep_view(),
                i <= lines.len(),
                n_wires <= i,
                parser_inv(
                    state_model(n_wires, gates@, outputs@, a_input_wires@, b_input_wires@),
                ),
                parse_lines(
                    state_model(n_wires, gates@, outputs@, a_input_wires@, b_input_wires@),
                    lv,
                    i as int,
                ) == parse_spec(src@),
            decreases lines.len() - i,
        {
            let ghost cur = state_model(n_wires, gates@, outputs@, a_input_wires@, b_input_wires@);
            let toks = tokenize_line(&lines[i]);
            let ghost tv = tokenize(lv[i as int]);
            proof {
                assert(lines@[i as int].deep_view() =~= lines@[i as int]@);
                assert(lv[i as int] == lines@[i as int]@);
                assert(toks.deep_view() == tv);
                assert forall|t: int| 0 <= t < toks@.len() implies tv[t] == toks@[t]@ by {
                    assert(tv[t] == toks@[t].deep_view());
                    assert(toks@[t].deep_view() =~= toks@[t]@);
                }
                assert(tv.len() == toks@.len());
            }
            if toks.len() == 0 {
                proof {
                    assert(step_line(cur, tv) == Some(cur));
                }
            } else if tok_is_kw_input(&toks[0]) {
                let is_a = toks.len() >= 2 && tok_is_tag_a(&toks[1]);
                let wire = n_wires;
                if is_a {
                    a_input_wires.push(wire);
                } else {
                    b_input_wires.push(wire);
                }
                n_wires += 1;
                proof {
                    lemma_input_push_inv(cur, is_a);
                    let cur2 = state_model(
                        n_wires,
                        gates@,
                        outputs@,
                        a_input_wires@,
                        b_input_wires@,
                    );
                    if is_a {
                        assert(wires_model(a_input_wires@)
                            =~= cur.a_wires.push(wire as int));
                        assert(cur2 == CircuitModel {
                            n_wires: cur.n_wires + 1,
                            a_wires: cur.a_wires.push(cur.n_wires),
                            ..cur
                        });
                    } else {
                        assert(wires_model(b_input_wires@)
                            =~= cur.b_wires.push(wire as int));
                        assert(cur2 == CircuitModel {
                            n_wires: cur.n_wires + 1,
                            b_wires: cur.b_wires.push(cur.n_wires),
                            ..cur
                        });
                    }
                    assert(step_line(cur, tv) == Some(cur2));
                }
            } else if tok_is_kw_not(&toks[0]) {
                if toks.len() < 2 {
                    proof {
                        assert(step_line(cur, tv) is None);
                    }
                    return Err(ParseError { line: i + 1 });
                }
                let w = match parse_operand(&toks[1], n_wires) {
                    Some(w) => w,
                    None => {
                        proof {
                            assert(step_line(cur, tv) is None);
                        }
                        return Err(ParseError { line: i + 1 });
                    },
                };
                let mut input_wires: Vec<usize> = Vec::new();
                input_wires.push(w);
                let gate = Gate { gate_type: GateType::Not, input_wires, output_wire: n_wires };
                let ghost gm = gate@;
                gates.push(gate);
                n_wires += 1;
                proof {
                    assert(gm.ins =~= seq![w as int]);
                    lemma_gate_push_inv(cur, gm);
                    let cur2 = state_model(
                        n_wires,
                        gates@,
                        outputs@,
                        a_input_wires@,
                        b_input_wires@,
                    );
                    assert(gates_model(gates@) =~= cur.gates.push(gm));
                    assert(cur2 == CircuitModel {
                        n_wires: cur.n_wires + 1,
                        gates: cur.gates.push(gm),
                        ..cur
                    });
                    assert(gm == GateModel {
                        op: GateType::Not,
                        ins: seq![dec_val(tv[1]) - 1],
                        out: cur.n_wires,
                    });
                    assert(step_line(cur, tv) == Some(cur2));
                }
            } else if tok_is_kw_and(&toks[0]) || tok_is_kw_xor(&toks[0]) {
                let is_and = tok_is_kw_and(&toks[0]);
                if toks.len() < 3 {
                    proof {
                        assert(step_line(cur, tv) is None);
                    }
                    return Err(ParseError { line: i + 1 });
                }
                let w1 = match parse_operand(&toks[1], n_wires) {
                    Some(w) => w,
                    None => {
                        proof {
                            assert(step_line(cur, tv) is None);
                        }
                        return Err(ParseError { line: i + 1 });
                    },
                };
                let w2 = match parse_operand(&toks[2], n_wires) {
                    Some(w) => w,
                    None => {
                        proof {
                            assert(step_line(cur, tv) is None);
                        }
                        return Err(ParseError { line: i + 1 });
                    },
                };
                let mut input_wires: Vec<usize> = Vec::new();
                input_wires.push(w1);
                input_wires.push(w2);
                let gate = Gate {
                    gate_type: if is_and {
                        GateType::And
                    } else {
                        GateType::Xor
                    },
                    input_wires,
                    output_wire: n_wires,
                };
                let ghost gm = gate@;
                gates.push(gate);
                n_wires += 1;
                proof {
                    assert(gm.ins =~= seq![w1 as int, w2 as int]);
                    lemma_gate_push_inv(cur, gm);
                    let cur2 = state_model(
                        n_wires,
                        gates@,
                        outputs@,
                        a_input_wires@,
                        b_input_wires@,
                    );
                    assert(gates_model(gates@) =~= cur.gates.push(gm));
                    assert(cur2 == CircuitModel {
                        n_wires: cur.n_wires + 1,
                        gates: cur.gates.push(gm),
                        ..cur
                    });
                    assert(gm == GateModel {
                        op: if tv[0] == kw_and() {
                            GateType::And
                        } else {
                            GateType::Xor
                        },
                        ins: seq![dec_val(tv[1]) - 1, dec_val(tv[2]) - 1],
                        out: cur.n_wires,
                    });
                    assert(step_line(cur, tv) == Some(cur2));
                }
            } else if tok_is_kw_emit(&toks[0]) {
                if toks.len() < 2 {
                    proof {
                        assert(step_line(cur, tv) is None);
                    }
                    return Err(ParseError { line: i + 1 });
                }
                let w = match parse_operand(&toks[1], n_wires) {
                    Some(w) => w,
                    None => {
                        proof {
                            assert(step_line(cur, tv) is None);
                        }
                        return Err(ParseError { line: i + 1 });
                    },
                };
                outputs.push(w);
                proof {
                    lemma_emit_push_inv(cur, w as int);
                    let cur2 = state_model(
                        n_wires,
                        gates@,
                        outputs@,
                        a_input_wires@,
                        b_input_wires@,
                    );
                    assert(wires_model(outputs@) =~= cur.outputs.push(w as int));
                    assert(cur2 == CircuitModel { outputs: cur.outputs.push(w as int), ..cur });
                    assert(step_line(cur, tv) == Some(cur2));
                }
            } else {
                proof {
                    assert(step_line(cur, tv) is None);
                }
                return Err(ParseError { line: i + 1 });
            }
            i += 1;
        }
        let circuit = Circuit { n_wires, gates, outputs, a_input_wires, b_input_wires };
        proof {
            assert(circuit@ == state_model(
                circuit.n_wires,
                circuit.gates@,
                circuit.outputs@,
                circuit.a_input_wires@,
                circuit.b_input_wires@,
            ));
        }
        Ok(circuit)
    }
}

} // verus!
