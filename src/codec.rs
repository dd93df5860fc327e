use vstd::prelude::*;

use crate::program::{Kind, Program};

verus! {

/// `e` occurs in `s` starting at index `pos`.
pub open spec fn prefix_at(e: Seq<u8>, s: Seq<u8>, pos: int) -> bool {
    &&& 0 <= pos
    &&& pos + e.len() <= s.len()
    &&& s.subrange(pos, pos + e.len()) == e
}

/// The name of a node kind, in ASCII.
pub open spec fn name_of(k: Kind) -> Seq<u8> {
    match k {
        Kind::X => seq![88u8],
        Kind::Y => seq![89u8],
        Kind::T => seq![84u8],
        Kind::Xor => seq![88u8, 111, 114],
        Kind::And => seq![65u8, 110, 100],
        Kind::Or => seq![79u8, 114],
        Kind::Add => seq![65u8, 100, 100],
        Kind::Sub => seq![83u8, 117, 98],
        Kind::Mul => seq![77u8, 117, 108],
        Kind::Div => seq![68u8, 105, 118],
    }
}

/// `{"variant":"`
pub open spec fn variant_open() -> Seq<u8> {
    seq![123u8, 34, 118, 97, 114, 105, 97, 110, 116, 34, 58, 34]
}

/// `","fields":[`
pub open spec fn fields_open() -> Seq<u8> {
    seq![34u8, 44, 34, 102, 105, 101, 108, 100, 115, 34, 58, 91]
}

/// `]}`
pub open spec fn fields_close() -> Seq<u8> {
    seq![93u8, 125]
}

/// What the encoding of a node of kind `k` starts with: an input is its name in quotes,
/// an operator opens an object with its name as `variant` and opens the `fields` array.
pub open spec fn lead(k: Kind) -> Seq<u8> {
    if k.is_operator() {
        variant_open() + name_of(k) + fields_open()
    } else {
        seq![34u8] + name_of(k) + seq![34u8]
    }
}

impl Program {
    /// The JSON text of the tree: `"X"` for an input, and
    /// `{"variant":"Add","fields":[<left>,<right>]}` for an operator, with no whitespace.
    pub open spec fn encoding(&self) -> Seq<u8>
        decreases self,
    {
        match self {
            Program::X | Program::Y | Program::T => lead(self.spec_kind()),
            Program::Xor(a, b) | Program::And(a, b) | Program::Or(a, b) | Program::Add(a, b)
            | Program::Sub(a, b) | Program::Mul(a, b) | Program::Div(a, b) => lead(
                self.spec_kind(),
            ) + a.encoding() + seq![44u8] + b.encoding() + fields_close(),
        }
    }
}

proof fn lemma_prefix_concat(x: Seq<u8>, y: Seq<u8>, s: Seq<u8>, pos: int)
    ensures
        prefix_at(x + y, s, pos) <==> (prefix_at(x, s, pos) && prefix_at(y, s, pos + x.len())),
{
    if prefix_at(x + y, s, pos) {
        assert(s.subrange(pos, pos + x.len()) =~= (x + y).subrange(0, x.len() as int));
        assert((x + y).subrange(0, x.len() as int) =~= x);
        assert(s.subrange(pos + x.len(), pos + x.len() + y.len()) =~= (x + y).subrange(
            x.len() as int,
            (x.len() + y.len()) as int,
        ));
        assert((x + y).subrange(x.len() as int, (x.len() + y.len()) as int) =~= y);
    }
    if prefix_at(x, s, pos) && prefix_at(y, s, pos + x.len()) {
        assert(s.subrange(pos, pos + x.len() + y.len()) =~= s.subrange(pos, pos + x.len())
            + s.subrange(pos + x.len(), pos + x.len() + y.len()));
    }
}

proof fn lemma_prefix_index(e: Seq<u8>, s: Seq<u8>, pos: int, j: int)
    requires
        prefix_at(e, s, pos),
        0 <= j < e.len(),
    ensures
        s[pos + j] == e[j],
{
    assert(s.subrange(pos, pos + e.len())[j] == s[pos + j]);
}

proof fn lemma_lead_bytes(k: Kind)
    ensures
        lead(k).len() >= 3,
        lead(k)[0] == if k.is_operator() { 123u8 } else { 34u8 },
        !k.is_operator() ==> lead(k)[1] == name_of(k)[0],
        k.is_operator() ==> lead(k).len() >= 14 && lead(k)[12] == name_of(k)[0] && lead(k)[13]
            == name_of(k)[1],
{
    if k.is_operator() {
        assert(name_of(k).len() >= 2);
        assert((variant_open() + name_of(k) + fields_open())[12] == name_of(k)[0]);
        assert((variant_open() + name_of(k) + fields_open())[13] == name_of(k)[1]);
    } else {
        assert((seq![34u8] + name_of(k) + seq![34u8])[1] == name_of(k)[0]);
    }
}

/// No two kinds' leads can both start at the same place: the first byte tells an input
/// from an operator, and the name's first two bytes tell the kinds apart.
proof fn lemma_lead_distinct(k1: Kind, k2: Kind, s: Seq<u8>, pos: int)
    requires
        prefix_at(lead(k1), s, pos),
        prefix_at(lead(k2), s, pos),
    ensures
        k1 == k2,
{
    lemma_lead_bytes(k1);
    lemma_lead_bytes(k2);
    lemma_prefix_index(lead(k1), s, pos, 0);
    lemma_prefix_index(lead(k2), s, pos, 0);
    if k1.is_operator() {
        lemma_prefix_index(lead(k1), s, pos, 12);
        lemma_prefix_index(lead(k2), s, pos, 12);
        lemma_prefix_index(lead(k1), s, pos, 13);
        lemma_prefix_index(lead(k2), s, pos, 13);
    } else {
        lemma_prefix_index(lead(k1), s, pos, 1);
        lemma_prefix_index(lead(k2), s, pos, 1);
    }
}

/// Where an operator's encoding starts at `pos`, and where each of its parts lies.
proof fn lemma_operator_parts(k: Kind, a: Program, b: Program, s: Seq<u8>, pos: int)
    requires
        k.is_operator(),
    ensures
        prefix_at(lead(k) + a.encoding() + seq![44u8] + b.encoding() + fields_close(), s, pos)
            <==> {
            &&& prefix_at(lead(k), s, pos)
            &&& prefix_at(a.encoding(), s, pos + lead(k).len())
            &&& prefix_at(seq![44u8], s, pos + lead(k).len() + a.encoding().len())
            &&& prefix_at(b.encoding(), s, pos + lead(k).len() + a.encoding().len() + 1)
            &&& prefix_at(
                fields_close(),
                s,
                pos + lead(k).len() + a.encoding().len() + 1 + b.encoding().len(),
            )
        },
{
    let l = lead(k);
    let ea = a.encoding();
    let eb = b.encoding();
    let c = seq![44u8];
    lemma_prefix_concat(l + ea + c + eb, fields_close(), s, pos);
    lemma_prefix_concat(l + ea + c, eb, s, pos);
    lemma_prefix_concat(l + ea, c, s, pos);
    lemma_prefix_concat(l, ea, s, pos);
}

/// The encoding of a tree starts with the lead of its root's kind.
proof fn lemma_lead_prefix(p: Program, s: Seq<u8>, pos: int)
    requires
        prefix_at(p.encoding(), s, pos),
    ensures
        prefix_at(lead(p.spec_kind()), s, pos),
{
    match p {
        Program::X | Program::Y | Program::T => {},
        Program::Xor(a, b) | Program::And(a, b) | Program::Or(a, b) | Program::Add(a, b)
        | Program::Sub(a, b) | Program::Mul(a, b) | Program::Div(a, b) => {
            lemma_operator_parts(p.spec_kind(), *a, *b, s, pos);
        },
    }
}

/// No encoding is a proper prefix of another: two trees whose encodings both start at
/// `pos` are the same tree.
pub proof fn lemma_prefix_unique(p: Program, q: Program, s: Seq<u8>, pos: int)
    requires
        prefix_at(p.encoding(), s, pos),
        prefix_at(q.encoding(), s, pos),
    ensures
        p == q,
    decreases p,
{
    lemma_lead_prefix(p, s, pos);
    lemma_lead_prefix(q, s, pos);
    lemma_lead_distinct(p.spec_kind(), q.spec_kind(), s, pos);
    match p {
        Program::X | Program::Y | Program::T => {},
        Program::Xor(a, b) | Program::And(a, b) | Program::Or(a, b) | Program::Add(a, b)
        | Program::Sub(a, b) | Program::Mul(a, b) | Program::Div(a, b) => {
            let k = p.spec_kind();
            let (c, d) = q.operands().unwrap();
            assert(q.encoding() == lead(k) + c.encoding() + seq![44u8] + d.encoding()
                + fields_close());
            lemma_operator_parts(k, *a, *b, s, pos);
            lemma_operator_parts(k, c, d, s, pos);
            lemma_prefix_unique(*a, c, s, pos + lead(k).len());
            lemma_prefix_unique(*b, d, s, pos + lead(k).len() + a.encoding().len() + 1);
        },
    }
}

/// Two trees with the same encoding are the same tree.
pub proof fn lemma_encoding_injective(p: Program, q: Program)
    requires
        p.encoding() == q.encoding(),
    ensures
        p == q,
{
    let s = p.encoding();
    assert(s.subrange(0, s.len() as int) =~= s);
    lemma_prefix_unique(p, q, s, 0);
}

/// Why a text did not decode.
#[derive(Clone, Copy, Debug, PartialEq, Eq)]
pub enum DecodeError {
    /// The bytes are not the encoding of any tree.
    Malformed,
}

/// Position of each kind in the table that the decoder walks.
spec fn kind_index(k: Kind) -> int {
    match k {
        Kind::X => 0,
        Kind::Y => 1,
        Kind::T => 2,
        Kind::Xor => 3,
        Kind::And => 4,
        Kind::Or => 5,
        Kind::Add => 6,
        Kind::Sub => 7,
        Kind::Mul => 8,
        Kind::Div => 9,
    }
}

fn push_all(out: &mut Vec<u8>, bytes: &[u8])
    ensures
        final(out)@ == old(out)@ + bytes@,
{
    let mut i: usize = 0;
    while i < bytes.len()
        invariant
            i <= bytes@.len(),
            out@ == old(out)@ + bytes@.subrange(0, i as int),
        decreases bytes@.len() - i,
    {
        proof {
            assert(bytes@.subrange(0, i + 1) =~= bytes@.subrange(0, i as int).push(bytes@[i as int]));
        }
        out.push(bytes[i]);
        i = i + 1;
    }
    proof {
        assert(bytes@.subrange(0, i as int) =~= bytes@);
    }
}

fn push_name(out: &mut Vec<u8>, k: Kind)
    ensures
        final(out)@ == old(out)@ + name_of(k),
{
    let x = [88u8];
    let y = [89u8];
    let t = [84u8];
    let xor = [88u8, 111, 114];
    let and = [65u8, 110, 100];
    let or = [79u8, 114];
    let add = [65u8, 100, 100];
    let sub = [83u8, 117, 98];
    let mul = [77u8, 117, 108];
    let div = [68u8, 105, 118];
    match k {
        Kind::X => push_all(out, &x),
        Kind::Y => push_all(out, &y),
        Kind::T => push_all(out, &t),
        Kind::Xor => push_all(out, &xor),
        Kind::And => push_all(out, &and),
        Kind::Or => push_all(out, &or),
        Kind::Add => push_all(out, &add),
        Kind::Sub => push_all(out, &sub),
        Kind::Mul => push_all(out, &mul),
        Kind::Div => push_all(out, &div),
    }
    proof {
        assert(x@ =~= seq![88u8]);
        assert(y@ =~= seq![89u8]);
        assert(t@ =~= seq![84u8]);
        assert(xor@ =~= seq![88u8, 111, 114]);
        assert(and@ =~= seq![65u8, 110, 100]);
        assert(or@ =~= seq![79u8, 114]);
        assert(add@ =~= seq![65u8, 100, 100]);
        assert(sub@ =~= seq![83u8, 117, 98]);
        assert(mul@ =~= seq![77u8, 117, 108]);
        assert(div@ =~= seq![68u8, 105, 118]);
    }
}

fn lead_bytes(k: Kind) -> (r: Vec<u8>)
    ensures
        r@ == lead(k),
{
    let mut r: Vec<u8> = Vec::new();
    if k.is_operator() {
        let open = [123u8, 34, 118, 97, 114, 105, 97, 110, 116, 34, 58, 34];
        let fields = [34u8, 44, 34, 102, 105, 101, 108, 100, 115, 34, 58, 91];
        push_all(&mut r, &open);
        push_name(&mut r, k);
        push_all(&mut r, &fields);
        proof {
            assert(open@ =~= variant_open());
            assert(fields@ =~= fields_open());
            assert(r@ =~= lead(k));
        }
    } else {
        r.push(34);
        push_name(&mut r, k);
        r.push(34);
        proof {
            assert(r@ =~= lead(k));
        }
    }
    r
}

/// `pat` occurs in `s` at `pos`.
fn matches_at(s: &[u8], pos: usize, pat: &[u8]) -> (r: bool)
    requires
        pos <= s@.len(),
    ensures
        r == prefix_at(pat@, s@, pos as int),
{
    let n = s.len();
    if pat.len() > n - pos {
        return false;
    }
    let mut j: usize = 0;
    while j < pat.len()
        invariant
            n == s@.len(),
            pos + pat@.len() <= s@.len(),
            j <= pat@.len(),
            forall|i: int| 0 <= i < j ==> s@[pos + i] == pat@[i],
        decreases pat@.len() - j,
    {
        if s[pos + j] != pat[j] {
            proof {
                if prefix_at(pat@, s@, pos as int) {
                    lemma_prefix_index(pat@, s@, pos as int, j as int);
                }
            }
            return false;
        }
        j = j + 1;
    }
    proof {
        assert(s@.subrange(pos as int, pos + pat@.len()) =~= pat@);
    }
    true
}

/// Where `p`'s encoding and the lead of the operator kind `k` both start at `pos`, `p` is
/// a node of kind `k` whose parts lie where `lemma_operator_parts` puts them.
proof fn lemma_operator_at(p: Program, k: Kind, s: Seq<u8>, pos: int)
    requires
        k.is_operator(),
        prefix_at(p.encoding(), s, pos),
        prefix_at(lead(k), s, pos),
    ensures
        p.spec_kind() == k,
        p.operands() is Some,
        ({
            let (a, b) = p.operands().unwrap();
            &&& prefix_at(a.encoding(), s, pos + lead(k).len())
            &&& prefix_at(seq![44u8], s, pos + lead(k).len() + a.encoding().len())
            &&& prefix_at(b.encoding(), s, pos + lead(k).len() + a.encoding().len() + 1)
            &&& prefix_at(
                fields_close(),
                s,
                pos + lead(k).len() + a.encoding().len() + 1 + b.encoding().len(),
            )
        }),
{
    lemma_lead_prefix(p, s, pos);
    lemma_lead_distinct(p.spec_kind(), k, s, pos);
    let (a, b) = p.operands().unwrap();
    assert(p.encoding() == lead(k) + a.encoding() + seq![44u8] + b.encoding() + fields_close());
    lemma_operator_parts(k, a, b, s, pos);
}

/// Reads the operands and the closing bytes of an operator node of kind `k` whose lead
/// ends at `start`.
fn parse_operands(s: &[u8], pos: usize, k: Kind, start: usize) -> (r: Option<(Program, usize)>)
    requires
        k.is_operator(),
        prefix_at(lead(k), s@, pos as int),
        start == pos + lead(k).len(),
    ensures
        r matches Some((p, end)) ==> pos < end <= s@.len() && s@.subrange(pos as int, end as int)
            == p.encoding(),
        r is None ==> forall|p: Program| !prefix_at(#[trigger] p.encoding(), s@, pos as int),
    decreases s@.len() - pos, 0nat,
{
    let (a, e1) = match parse_at(s, start) {
        Some(r) => r,
        None => {
            proof {
                assert forall|p: Program| !prefix_at(#[trigger] p.encoding(), s@, pos as int) by {
                    if prefix_at(p.encoding(), s@, pos as int) {
                        lemma_operator_at(p, k, s@, pos as int);
                    }
                }
            }
            return None;
        },
    };
    proof {
        assert(s@.subrange(start as int, e1 as int) =~= s@.subrange(
            start as int,
            start + a.encoding().len(),
        ));
    }
    if e1 >= s.len() || s[e1] != 44 {
        proof {
            assert forall|p: Program| !prefix_at(#[trigger] p.encoding(), s@, pos as int) by {
                if prefix_at(p.encoding(), s@, pos as int) {
                    lemma_operator_at(p, k, s@, pos as int);
                    let (c, d) = p.operands().unwrap();
                    lemma_prefix_unique(a, c, s@, start as int);
                    lemma_prefix_index(seq![44u8], s@, e1 as int, 0);
                }
            }
        }
        return None;
    }
    let (b, e2) = match parse_at(s, e1 + 1) {
        Some(r) => r,
        None => {
            proof {
                assert forall|p: Program| !prefix_at(#[trigger] p.encoding(), s@, pos as int) by {
                    if prefix_at(p.encoding(), s@, pos as int) {
                        lemma_operator_at(p, k, s@, pos as int);
                        let (c, d) = p.operands().unwrap();
                        lemma_prefix_unique(a, c, s@, start as int);
                    }
                }
            }
            return None;
        },
    };
    proof {
        assert(s@.subrange(e1 + 1, e2 as int) =~= s@.subrange(
            e1 + 1,
            e1 + 1 + b.encoding().len(),
        ));
    }
    let close = [93u8, 125];
    proof {
        assert(close@ =~= fields_close());
    }
    if !matches_at(s, e2, &close) {
        proof {
            assert forall|p: Program| !prefix_at(#[trigger] p.encoding(), s@, pos as int) by {
                if prefix_at(p.encoding(), s@, pos as int) {
                    lemma_operator_at(p, k, s@, pos as int);
                    let (c, d) = p.operands().unwrap();
                    lemma_prefix_unique(a, c, s@, start as int);
                    lemma_prefix_unique(b, d, s@, e1 + 1);
                }
            }
        }
        return None;
    }
    let p = Program::from_kind(k, a, b);
    proof {
        assert(p.encoding() == lead(k) + a.encoding() + seq![44u8] + b.encoding()
            + fields_close());
        assert(prefix_at(seq![44u8], s@, e1 as int)) by {
            assert(s@.subrange(e1 as int, e1 + 1) =~= seq![44u8]);
        }
        lemma_operator_parts(k, a, b, s@, pos as int);
    }
    Some((p, e2 + 2))
}

/// Reads one tree whose encoding starts at `pos`, and returns it with the index just past
/// its encoding; `None` where no tree's encoding starts there.
fn parse_at(s: &[u8], pos: usize) -> (r: Option<(Program, usize)>)
    requires
        pos <= s@.len(),
    ensures
        r matches Some((p, end)) ==> pos < end <= s@.len() && s@.subrange(pos as int, end as int)
            == p.encoding(),
        r is None ==> forall|p: Program| !prefix_at(#[trigger] p.encoding(), s@, pos as int),
    decreases s@.len() - pos, 1nat,
{
    let kinds = [
        Kind::X,
        Kind::Y,
        Kind::T,
        Kind::Xor,
        Kind::And,
        Kind::Or,
        Kind::Add,
        Kind::Sub,
        Kind::Mul,
        Kind::Div,
    ];
    proof {
        assert forall|k: Kind| kinds@[kind_index(k)] == k by {}
    }
    let n = s.len();
    let mut i: usize = 0;
    while i < 10
        invariant
            n == s@.len(),
            pos <= s@.len(),
            kinds@.len() == 10,
            forall|k: Kind| kinds@[kind_index(k)] == k,
            i <= 10,
            forall|j: int| 0 <= j < i ==> !prefix_at(lead(#[trigger] kinds@[j]), s@, pos as int),
        decreases 10 - i,
    {
        let k = kinds[i];
        let lead = lead_bytes(k);
        if matches_at(s, pos, lead.as_slice()) {
            proof {
                lemma_lead_bytes(k);
            }
            if k.is_operator() {
                return parse_operands(s, pos, k, pos + lead.len());
            }
            let p = Program::from_kind(k, Program::X, Program::X);
            return Some((p, pos + lead.len()));
        }
        i = i + 1;
    }
    proof {
        assert forall|p: Program| !prefix_at(#[trigger] p.encoding(), s@, pos as int) by {
            if prefix_at(p.encoding(), s@, pos as int) {
                lemma_lead_prefix(p, s@, pos as int);
                assert(kinds@[kind_index(p.spec_kind())] == p.spec_kind());
            }
        }
    }
    None
}

impl Program {
    fn write_encoding(&self, out: &mut Vec<u8>)
        ensures
            final(out)@ == old(out)@ + self.encoding(),
        decreases self,
    {
        let mut lead = lead_bytes(self.kind());
        out.append(&mut lead);
        match self {
            Program::X | Program::Y | Program::T => {},
            Program::Xor(a, b) | Program::And(a, b) | Program::Or(a, b) | Program::Add(a, b)
            | Program::Sub(a, b) | Program::Mul(a, b) | Program::Div(a, b) => {
                let ghost before = out@;
                a.write_encoding(out);
                out.push(44);
                b.write_encoding(out);
                out.push(93);
                out.push(125);
                proof {
                    assert(out@ =~= before + a.encoding() + seq![44u8] + b.encoding()
                        + fields_close());
                }
            },
        }
        proof {
            assert(out@ =~= old(out)@ + self.encoding());
        }
    }

    /// The JSON text of the tree, as bytes.
    pub fn encode(&self) -> (r: Vec<u8>)
        ensures
            r@ == self.encoding(),
    {
        let mut out: Vec<u8> = Vec::new();
        self.write_encoding(&mut out);
        proof {
            assert(out@ =~= self.encoding());
        }
        out
    }

    /// The tree whose encoding `bytes` is; `Malformed` where `bytes` encodes no tree.
    pub fn decode(bytes: &[u8]) -> (r: Result<Program, DecodeError>)
        ensures
            r matches Ok(p) ==> p.encoding() == bytes@,
            r is Err <==> forall|p: Program| #[trigger] p.encoding() != bytes@,
    {
        match parse_at(bytes, 0) {
            Some((p, end)) => {
                if end == bytes.len() {
                    proof {
                        assert(bytes@.subrange(0, end as int) =~= bytes@);
                    }
                    Ok(p)
                } else {
                    proof {
                        assert forall|q: Program| #[trigger] q.encoding() != bytes@ by {
                            if q.encoding() == bytes@ {
                                assert(bytes@.subrange(0, bytes@.len() as int) =~= bytes@);
                                assert(bytes@.subrange(0, end as int) =~= bytes@.subrange(
                                    0,
                                    p.encoding().len() as int,
                                ));
                                lemma_prefix_unique(p, q, bytes@, 0);
                            }
                        }
                    }
                    Err(DecodeError::Malformed)
                }
            },
            None => {
                proof {
                    assert forall|q: Program| #[trigger] q.encoding() != bytes@ by {
                        if q.encoding() == bytes@ {
                            assert(bytes@.subrange(0, bytes@.len() as int) =~= bytes@);
                        }
                    }
                }
                Err(DecodeError::Malformed)
            },
        }
    }
}

/// Decoding the encoding of a tree gives back that very tree: the only tree with the same
/// encoding is `p` itself, which evaluates as `p` does on every input.
pub proof fn lemma_round_trip(p: Program)
    ensures
        forall|q: Program| #[trigger] q.encoding() == p.encoding() ==> q == p,
        forall|q: Program, x: u8, y: u8, t: u8|
            q.encoding() == p.encoding() ==> #[trigger] q.value(x, y, t) == p.value(x, y, t),
{
    assert forall|q: Program| #[trigger] q.encoding() == p.encoding() implies q == p by {
        lemma_encoding_injective(q, p);
    }
}

} // verus!
