//! Boolean circuits in the Bristol format, and the plaintext permutation that
//! the Keccak benchmark circuit is checked against.
use vstd::prelude::*;
use vstd::string::StringSliceAdditionalSpecFns;

verus! {

/// Index of a wire in a circuit.
pub type WireId = usize;

/// Number of input bits of the permutation (Keccak-f[1600]).
pub const NUM_INPUTS: usize = 1600;

/// Number of output bits of the permutation.
pub const NUM_OUTPUTS: usize = 1600;

/// What a wire computes from earlier wires.
#[derive(Clone, Copy, Debug, PartialEq, Eq, Structural)]
pub enum WireBody {
    Inv(WireId),
    Xor(WireId, WireId),
    And(WireId, WireId),
    Input(usize),
}

/// Options of the Keccak benchmark.
#[derive(Clone, Copy, Debug, PartialEq, Eq, Structural)]
pub struct KeccakArgs {
    pub vole_concurrency: usize,
    pub num_keccak_groups: usize,
    pub keccak_per_group: usize,
}

impl Default for KeccakArgs {
    fn default() -> (r: KeccakArgs)
        ensures
            r.vole_concurrency == 1,
            r.num_keccak_groups == 2,
            r.keccak_per_group == 2,
    {
        KeccakArgs { vole_concurrency: 1, num_keccak_groups: 2, keccak_per_group: 2 }
    }
}

/// A circuit: its wires in evaluation order, for each wire the later wires
/// that read it, and the wires that are its outputs.
#[derive(Debug)]
pub struct Circuit {
    pub wires: Vec<WireBody>,
    pub reverse_deps: Vec<Vec<WireId>>,
    pub outputs: Vec<WireId>,
}

/// The distinct wires that `body` reads.
pub open spec fn operands(body: WireBody) -> Seq<WireId> {
    match body {
        WireBody::Inv(x) => seq![x],
        WireBody::Xor(a, b) => if a == b {
            seq![a]
        } else {
            seq![a, b]
        },
        WireBody::And(a, b) => if a == b {
            seq![a]
        } else {
            seq![a, b]
        },
        WireBody::Input(_) => seq![],
    }
}

/// `body` reads only wires below `n`.
pub open spec fn body_reads_below(body: WireBody, n: nat) -> bool {
    forall|k: int| 0 <= k < operands(body).len() ==> operands(body)[k] < n
}

impl Circuit {
    /// Every wire reads only earlier wires, and there is one list of readers
    /// per wire.
    pub open spec fn wf(&self) -> bool {
        &&& self.reverse_deps@.len() == self.wires@.len()
        &&& forall|i: int|
            0 <= i < self.wires@.len() ==> body_reads_below(#[trigger] self.wires@[i], i as nat)
    }

    /// The empty circuit.
    pub fn new() -> (r: Circuit)
        ensures
            r.wf(),
            r.wires@.len() == 0,
            r.outputs@.len() == 0,
    {
        Circuit { wires: Vec::new(), reverse_deps: Vec::new(), outputs: Vec::new() }
    }

    /// Appends a wire and records it as a reader of each wire it reads.
    /// Returns its index.
    #[verifier::rlimit(20)]
    pub fn add_wire(&mut self, body: WireBody) -> (out: WireId)
        requires
            old(self).wf(),
            body_reads_below(body, old(self).wires@.len() as nat),
            old(self).wires@.len() < usize::MAX,
        ensures
            out == old(self).wires@.len(),
            final(self).wf(),
            final(self).wires@ == old(self).wires@.push(body),
            final(self).outputs@ == old(self).outputs@,
            final(self).reverse_deps@.len() == out + 1,
            final(self).reverse_deps@[out as int]@.len() == 0,
            forall|j: int|
                0 <= j < out ==> (#[trigger] final(self).reverse_deps@[j])@ == if operands(
                    body,
                ).contains(j as WireId) {
                    old(self).reverse_deps@[j]@.push(out)
                } else {
                    old(self).reverse_deps@[j]@
                },
    {
        let out = self.wires.len();
        self.reverse_deps.push(Vec::new());
        match body {
            WireBody::Inv(x) => {
                assert(operands(body)[0] == x);
                self.push_reader(x, out);
            },
            WireBody::Xor(a, b) | WireBody::And(a, b) => {
                assert(operands(body)[0] == a);
                self.push_reader(a, out);
                if a != b {
                    assert(operands(body)[1] == b);
                    self.push_reader(b, out);
                }
            },
            WireBody::Input(_) => {},
        }
        self.wires.push(body);
        proof {
            assert forall|i: int| 0 <= i < self.wires@.len() implies body_reads_below(
                #[trigger] self.wires@[i],
                i as nat,
            ) by {
                if i < out {
                    assert(self.wires@[i] == old(self).wires@[i]);
                }
            }
            assert forall|j: int| 0 <= j < out implies (#[trigger] self.reverse_deps@[j])@ == if operands(
                body,
            ).contains(j as WireId) {
                old(self).reverse_deps@[j]@.push(out)
            } else {
                old(self).reverse_deps@[j]@
            } by {
                match body {
                    WireBody::Inv(x) => {
                        assert(operands(body).contains(j as WireId) <==> j == x);
                    },
                    WireBody::Xor(a, b) | WireBody::And(a, b) => {
                        if a == b {
                            assert(operands(body).contains(j as WireId) <==> j == a);
                        } else {
                            assert(operands(body).contains(j as WireId) <==> (j == a || j == b));
                        }
                    },
                    WireBody::Input(_) => {
                        assert(!operands(body).contains(j as WireId));
                    },
                }
            }
        }
        out
    }

    /// Appends `reader` to the readers of wire `x`.
    fn push_reader(&mut self, x: WireId, reader: WireId)
        requires
            x < old(self).reverse_deps@.len(),
        ensures
            final(self).wires == old(self).wires,
            final(self).outputs == old(self).outputs,
            final(self).reverse_deps@ == old(self).reverse_deps@.update(
                x as int,
                final(self).reverse_deps@[x as int],
            ),
            final(self).reverse_deps@[x as int]@ == old(self).reverse_deps@[x as int]@.push(reader),
    {
        let mut readers = self.reverse_deps[x].clone();
        readers.push(reader);
        self.reverse_deps.set(x, readers);
    }
}

// ---------------------------------------------------------------------------
// Parsing the Bristol format.

/// Why a circuit description was refused.
#[derive(Clone, Copy, Debug, PartialEq, Eq, Structural)]
pub enum ParseError {
    /// The header line is missing or malformed.
    BadHeader,
    /// The line giving the numbers of input and output wires is missing.
    MissingIoLine,
    /// A token that should be a number is not one, or does not fit.
    BadNumber,
    /// A gate line ends in a name other than XOR, AND or INV.
    UnknownGate,
    /// A gate line has the wrong counts or number of tokens.
    BadGate,
    /// A gate reads a wire that no earlier line defines, or one out of range.
    UndefinedWire,
    /// A gate writes a wire that is already defined, or one out of range.
    WireRedefined,
    /// The number of wires differs from the header.
    WireCountMismatch,
}

/// Value of a sequence of decimal digits.
pub open spec fn digits_value(s: Seq<u8>) -> int
    decreases s.len(),
{
    if s.len() == 0 {
        0
    } else {
        10 * digits_value(s.drop_last()) + (s.last() - 0x30)
    }
}

/// Every byte of `s` is a decimal digit.
pub open spec fn all_digits(s: Seq<u8>) -> bool {
    forall|i: int| 0 <= i < s.len() ==> 0x30 <= #[trigger] s[i] <= 0x39
}

/// A token: a span of bytes of the source.
pub open spec fn span_ok(b: Seq<u8>, sp: (usize, usize)) -> bool {
    sp.0 < sp.1 <= b.len()
}

/// The bytes of a token.
pub open spec fn token(b: Seq<u8>, sp: (usize, usize)) -> Seq<u8> {
    b.subrange(sp.0 as int, sp.1 as int)
}

/// The number a token writes, if it is all digits and fits in a `usize`.
pub open spec fn number(s: Seq<u8>) -> Option<usize> {
    if all_digits(s) && digits_value(s) <= usize::MAX {
        Some(digits_value(s) as usize)
    } else {
        None
    }
}

/// Reads the decimal number in `b[start..end]`.
#[verifier::rlimit(20)]
pub fn parse_usize(b: &[u8], start: usize, end: usize) -> (r: Option<usize>)
    requires
        start < end <= b@.len(),
    ensures
        r is Some <==> (all_digits(b@.subrange(start as int, end as int)) && digits_value(
            b@.subrange(start as int, end as int),
        ) <= usize::MAX),
        r matches Some(v) ==> v == digits_value(b@.subrange(start as int, end as int)),
{
    let mut v: usize = 0;
    let mut i: usize = start;
    while i < end
        invariant
            start <= i <= end <= b@.len(),
            all_digits(b@.subrange(start as int, i as int)),
            v == digits_value(b@.subrange(start as int, i as int)),
        decreases end - i,
    {
        let c = b[i];
        proof {
            let s = b@.subrange(start as int, i as int + 1);
            assert(s.drop_last() =~= b@.subrange(start as int, i as int));
            assert(s.last() == c);
        }
        if c < 0x30 || c > 0x39 {
            proof {
                assert(b@.subrange(start as int, end as int)[i - start] == c);
            }
            return None;
        }
        let d = (c - 0x30) as usize;
        if v > (usize::MAX - d) / 10 {
            proof {
                let whole = b@.subrange(start as int, end as int);
                let pre = b@.subrange(start as int, i as int + 1);
                assert(digits_value(pre) == 10 * v + d);
                assert(10 * v + d > usize::MAX) by (nonlinear_arith)
                    requires
                        v > (usize::MAX - d) / 10,
                        d <= 9,
                ;
                if all_digits(whole) {
                    lemma_digits_grow(whole, (i - start + 1) as nat);
                    assert(whole.subrange(0, i - start + 1) =~= pre);
                }
            }
            return None;
        }
        v = v * 10 + d;
        i = i + 1;
        proof {
            let s = b@.subrange(start as int, i as int);
            assert forall|k: int| 0 <= k < s.len() implies 0x30 <= #[trigger] s[k] <= 0x39 by {
                if k < s.len() - 1 {
                    assert(s[k] == b@.subrange(start as int, i - 1)[k]);
                }
            }
        }
    }
    proof {
        assert(b@.subrange(start as int, i as int) =~= b@.subrange(start as int, end as int));
    }
    Some(v)
}

/// A number written with more digits is at least the number its first
/// digits write.
proof fn lemma_digits_grow(s: Seq<u8>, n: nat)
    requires
        n <= s.len(),
        all_digits(s),
    ensures
        digits_value(s) >= digits_value(s.subrange(0, n as int)),
        digits_value(s.subrange(0, n as int)) >= 0,
    decreases s.len(),
{
    lemma_digits_nonneg(s);
    lemma_digits_nonneg(s.subrange(0, n as int));
    if n < s.len() {
        let t = s.drop_last();
        assert(all_digits(t)) by {
            assert forall|i: int| 0 <= i < t.len() implies 0x30 <= #[trigger] t[i] <= 0x39 by {
                assert(t[i] == s[i]);
            }
        }
        assert(t.subrange(0, n as int) =~= s.subrange(0, n as int));
        lemma_digits_grow(t, n);
        lemma_digits_nonneg(t);
        assert(s.last() >= 0x30) by {
            assert(s[s.len() - 1] == s.last());
        }
    } else {
        assert(s.subrange(0, n as int) =~= s);
    }
}

proof fn lemma_digits_nonneg(s: Seq<u8>)
    requires
        all_digits(s),
    ensures
        digits_value(s) >= 0,
    decreases s.len(),
{
    if s.len() > 0 {
        let t = s.drop_last();
        assert(all_digits(t)) by {
            assert forall|i: int| 0 <= i < t.len() implies 0x30 <= #[trigger] t[i] <= 0x39 by {
                assert(t[i] == s[i]);
            }
        }
        lemma_digits_nonneg(t);
        assert(s[s.len() - 1] == s.last());
    }
}

/// Space, tab, carriage return, form feed or vertical tab: the separators
/// within a line.
pub open spec fn is_blank(c: u8) -> bool {
    c == 0x20 || c == 0x09 || c == 0x0d || c == 0x0c || c == 0x0b
}

/// A byte that ends a token.
pub open spec fn is_sep(c: u8) -> bool {
    c == 0x0a || is_blank(c)
}

/// The tokens of the current line, with the token that started at `start`,
/// if any, ended at `i`.
pub open spec fn close_token(cur: Seq<(usize, usize)>, start: Option<nat>, i: nat) -> Seq<(usize, usize)> {
    match start {
        Some(s) => cur.push((s as usize, i as usize)),
        None => cur,
    }
}

/// The lines of tokens of `b` from position `i` on, given the lines found
/// before it, the tokens of the current line and the start of the token
/// being read, if any. Lines without tokens are left out.
pub open spec fn scan(
    b: Seq<u8>,
    i: nat,
    lines: Seq<Seq<(usize, usize)>>,
    cur: Seq<(usize, usize)>,
    start: Option<nat>,
) -> Seq<Seq<(usize, usize)>>
    decreases b.len() - i,
{
    if i >= b.len() {
        let last = close_token(cur, start, i);
        if last.len() > 0 {
            lines.push(last)
        } else {
            lines
        }
    } else if is_sep(b[i as int]) {
        let line = close_token(cur, start, i);
        if b[i as int] == 0x0a && line.len() > 0 {
            scan(b, i + 1, lines.push(line), seq![], None)
        } else {
            scan(b, i + 1, lines, line, None)
        }
    } else {
        scan(b, i + 1, lines, cur, if start is Some { start } else { Some(i) })
    }
}

/// The lines of `b`, each as the spans of its blank-separated tokens.
pub open spec fn token_lines(b: Seq<u8>) -> Seq<Seq<(usize, usize)>> {
    scan(b, 0, seq![], seq![], None)
}

/// The views of a list of lines.
pub open spec fn lines_view(lines: Seq<Vec<(usize, usize)>>) -> Seq<Seq<(usize, usize)>> {
    Seq::new(lines.len(), |l: int| lines[l]@)
}

/// The tokens of a line that are all found are spans of `b`, and lines are
/// not empty.
pub open spec fn scan_ok(b: Seq<u8>, lines: Seq<Seq<(usize, usize)>>, cur: Seq<(usize, usize)>) -> bool {
    &&& forall|t: int| 0 <= t < cur.len() ==> span_ok(b, #[trigger] cur[t])
    &&& forall|l: int, t: int|
        0 <= l < lines.len() && 0 <= t < lines[l].len() ==> span_ok(b, #[trigger] lines[l][t])
    &&& forall|l: int| 0 <= l < lines.len() ==> (#[trigger] lines[l]).len() > 0
}

#[verifier::rlimit(20)]
proof fn lemma_scan_ok(
    b: Seq<u8>,
    i: nat,
    lines: Seq<Seq<(usize, usize)>>,
    cur: Seq<(usize, usize)>,
    start: Option<nat>,
)
    requires
        i <= b.len() <= usize::MAX,
        scan_ok(b, lines, cur),
        start matches Some(s) ==> s < i,
    ensures
        scan_ok(b, scan(b, i, lines, cur, start), seq![]),
    decreases b.len() - i,
{
    if i >= b.len() {
        let last = close_token(cur, start, i);
        assert(scan_ok(b, lines, last));
        if last.len() > 0 {
            let res = lines.push(last);
            assert forall|l: int, t: int| 0 <= l < res.len() && 0 <= t < res[l].len() implies span_ok(
                b,
                #[trigger] res[l][t],
            ) by {
                if l < lines.len() {
                    assert(res[l] == lines[l]);
                }
            }
        }
    } else if is_sep(b[i as int]) {
        let line = close_token(cur, start, i);
        assert(scan_ok(b, lines, line));
        if b[i as int] == 0x0a && line.len() > 0 {
            let res = lines.push(line);
            assert forall|l: int, t: int| 0 <= l < res.len() && 0 <= t < res[l].len() implies span_ok(
                b,
                #[trigger] res[l][t],
            ) by {
                if l < lines.len() {
                    assert(res[l] == lines[l]);
                }
            }
            lemma_scan_ok(b, i + 1, res, seq![], None);
        } else {
            lemma_scan_ok(b, i + 1, lines, line, None);
        }
    } else {
        lemma_scan_ok(b, i + 1, lines, cur, if start is Some { start } else { Some(i) });
    }
}

/// The spans of the blank-separated tokens of each line that has any.
#[verifier::rlimit(20)]
fn tokenize(b: &[u8]) -> (lines: Vec<Vec<(usize, usize)>>)
    ensures
        lines_view(lines@) == token_lines(b@),
{
    let mut lines: Vec<Vec<(usize, usize)>> = Vec::new();
    let mut cur: Vec<(usize, usize)> = Vec::new();
    let mut i: usize = 0;
    proof {
        assert(lines_view(lines@) =~= seq![]);
    }
    while i < b.len()
        invariant
            i <= b@.len(),
            scan(b@, i as nat, lines_view(lines@), cur@, None) == token_lines(b@),
        decreases b@.len() - i,
    {
        let c = b[i];
        if c == 0x0a {
            if cur.len() > 0 {
                proof {
                    assert(lines_view(lines@.push(cur)) =~= lines_view(lines@).push(cur@));
                }
                lines.push(cur);
                cur = Vec::new();
                proof {
                    assert(cur@ =~= seq![]);
                }
            }
            i = i + 1;
        } else if c == 0x20 || c == 0x09 || c == 0x0d || c == 0x0c || c == 0x0b {
            i = i + 1;
        } else {
            let start = i;
            i = i + 1;
            while i < b.len() && b[i] != 0x0a && b[i] != 0x20 && b[i] != 0x09 && b[i] != 0x0d
                && b[i] != 0x0c && b[i] != 0x0b
                invariant
                    start < i <= b@.len(),
                    scan(b@, i as nat, lines_view(lines@), cur@, Some(start as nat)) == token_lines(b@),
                decreases b@.len() - i,
            {
                i = i + 1;
            }
            cur.push((start, i));
        }
    }
    if cur.len() > 0 {
        proof {
            assert(lines_view(lines@.push(cur)) =~= lines_view(lines@).push(cur@));
        }
        lines.push(cur);
    }
    lines
}

/// The byte span `sp` of `b` spells `word`.
fn token_is(b: &[u8], sp: (usize, usize), word: &Vec<u8>) -> (r: bool)
    requires
        sp.0 <= sp.1 <= b@.len(),
    ensures
        r == (token(b@, sp) == word@),
{
    if sp.1 - sp.0 != word.len() {
        proof {
            assert(token(b@, sp).len() != word@.len());
        }
        return false;
    }
    let mut k: usize = 0;
    while k < word.len()
        invariant
            sp.0 <= sp.1 <= b@.len(),
            sp.1 - sp.0 == word@.len(),
            k <= word@.len(),
            forall|j: int| 0 <= j < k ==> b@[sp.0 + j] == word@[j],
        decreases word@.len() - k,
    {
        if b[sp.0 + k] != word[k] {
            proof {
                assert(token(b@, sp)[k as int] != word@[k as int]);
            }
            return false;
        }
        k = k + 1;
    }
    proof {
        assert(token(b@, sp) =~= word@);
    }
    true
}

/// Reads the number in token `t` of `line`.
fn number_at(b: &[u8], line: &Vec<(usize, usize)>, t: usize) -> (r: Result<usize, ParseError>)
    requires
        t < line@.len(),
        span_ok(b@, line@[t as int]),
    ensures
        r == match number(token(b@, line@[t as int])) {
            Some(v) => Ok::<usize, ParseError>(v),
            None => Err(ParseError::BadNumber),
        },
{
    let sp = line[t];
    match parse_usize(b, sp.0, sp.1) {
        Some(v) => Ok(v),
        None => Err(ParseError::BadNumber),
    }
}

/// The circuit wire that Bristol wire `w` was mapped to, if any.
pub open spec fn lookup(map: Seq<Option<WireId>>, w: usize) -> Option<WireId> {
    if w < map.len() {
        map[w as int]
    } else {
        None
    }
}

/// The circuit wire that Bristol wire `w` was mapped to.
fn mapped(map: &Vec<Option<WireId>>, w: usize) -> (r: Result<WireId, ParseError>)
    ensures
        r == match lookup(map@, w) {
            Some(x) => Ok::<WireId, ParseError>(x),
            None => Err(ParseError::UndefinedWire),
        },
{
    if w >= map.len() {
        return Err(ParseError::UndefinedWire);
    }
    match map[w] {
        Some(x) => Ok(x),
        None => Err(ParseError::UndefinedWire),
    }
}

/// The bytes of `XOR`, `AND` and `INV`.
pub open spec fn xor_word() -> Seq<u8> {
    seq![0x58u8, 0x4f, 0x52]
}

pub open spec fn and_word() -> Seq<u8> {
    seq![0x41u8, 0x4e, 0x44]
}

pub open spec fn inv_word() -> Seq<u8> {
    seq![0x49u8, 0x4e, 0x56]
}

/// What one gate line adds, given the mapping of Bristol wires so far, the
/// number of circuit wires so far and the declared number of wires: the
/// gate and the Bristol wire it defines.
pub open spec fn gate_step(
    b: Seq<u8>,
    line: Seq<(usize, usize)>,
    map: Seq<Option<WireId>>,
    nwires: nat,
    num_wires: nat,
) -> Result<(WireBody, usize), ParseError> {
    let name = token(b, line[line.len() - 1]);
    let (is_xor, is_and, is_inv) = (name == xor_word(), name == and_word(), name == inv_word());
    let n_in: nat = if is_inv {
        1
    } else {
        2
    };
    if !is_xor && !is_and && !is_inv {
        Err(ParseError::UnknownGate)
    } else if line.len() != n_in + 4 {
        Err(ParseError::BadGate)
    } else {
        match (number(token(b, line[0])), number(token(b, line[1]))) {
            (Some(ins), Some(outs)) => if ins != n_in || outs != 1 {
                Err(ParseError::BadGate)
            } else {
                match number(token(b, line[2])) {
                    None => Err(ParseError::BadNumber),
                    Some(a) => match lookup(map, a) {
                        None => Err(ParseError::UndefinedWire),
                        Some(in0) => {
                            let body: Result<WireBody, ParseError> = if is_inv {
                                Ok(WireBody::Inv(in0))
                            } else {
                                match number(token(b, line[3])) {
                                    None => Err(ParseError::BadNumber),
                                    Some(c) => match lookup(map, c) {
                                        None => Err(ParseError::UndefinedWire),
                                        Some(in1) => Ok(
                                            if is_xor {
                                                WireBody::Xor(in0, in1)
                                            } else {
                                                WireBody::And(in0, in1)
                                            },
                                        ),
                                    },
                                }
                            };
                            match body {
                                Err(e) => Err(e),
                                Ok(g) => match number(token(b, line[n_in + 2int])) {
                                    None => Err(ParseError::BadNumber),
                                    Some(out) => if out >= map.len() || map[out as int] is Some {
                                        Err(ParseError::WireRedefined)
                                    } else if nwires >= num_wires {
                                        Err(ParseError::WireCountMismatch)
                                    } else {
                                        Ok((g, out))
                                    },
                                },
                            }
                        },
                    },
                }
            },
            _ => Err(ParseError::BadNumber),
        }
    }
}

/// The input wires.
pub open spec fn input_wires() -> Seq<WireBody> {
    Seq::new(NUM_INPUTS as nat, |i: int| WireBody::Input(i as usize))
}

/// The mapping before any gate: Bristol wire `i < NUM_INPUTS` is input `i`.
pub open spec fn input_map(num_wires: nat) -> Seq<Option<WireId>> {
    Seq::new(
        num_wires,
        |j: int| if j < NUM_INPUTS {
            Some(j as usize)
        } else {
            None
        },
    )
}

/// The wires and the mapping once lines 2 up to (not including) `k` are read.
pub open spec fn gates(b: Seq<u8>, lines: Seq<Seq<(usize, usize)>>, num_wires: nat, k: nat) -> Result<
    (Seq<WireBody>, Seq<Option<WireId>>),
    ParseError,
>
    decreases k,
{
    if k <= 2 {
        Ok((input_wires(), input_map(num_wires)))
    } else {
        match gates(b, lines, num_wires, (k - 1) as nat) {
            Err(e) => Err(e),
            Ok((w, m)) => match gate_step(b, lines[k - 1], m, w.len(), num_wires) {
                Err(e) => Err(e),
                Ok((g, out)) => Ok((w.push(g), m.update(out as int, Some(w.len() as usize)))),
            },
        }
    }
}

proof fn lemma_gates_err(b: Seq<u8>, lines: Seq<Seq<(usize, usize)>>, num_wires: nat, k: nat, m: nat)
    requires
        k <= m,
        gates(b, lines, num_wires, k) is Err,
    ensures
        gates(b, lines, num_wires, m) == gates(b, lines, num_wires, k),
    decreases m - k,
{
    if k < m {
        lemma_gates_err(b, lines, num_wires, k, (m - 1) as nat);
    }
}

/// The outputs: the circuit wires of the last `NUM_OUTPUTS` Bristol wires.
pub open spec fn output_wires(map: Seq<Option<WireId>>) -> Result<Seq<WireId>, ParseError> {
    let first = map.len() - NUM_OUTPUTS;
    if forall|k: int| 0 <= k < NUM_OUTPUTS ==> #[trigger] map[first + k] is Some {
        Ok(Seq::new(NUM_OUTPUTS as nat, |k: int| map[first + k]->Some_0))
    } else {
        Err(ParseError::UndefinedWire)
    }
}

/// The circuit that a Bristol description defines: its wires and outputs,
/// or why it is refused.
pub open spec fn parse_spec(b: Seq<u8>) -> Result<(Seq<WireBody>, Seq<WireId>), ParseError> {
    let lines = token_lines(b);
    if lines.len() < 1 || lines[0].len() < 2 {
        Err(ParseError::BadHeader)
    } else if lines.len() < 2 {
        Err(ParseError::MissingIoLine)
    } else {
        match (number(token(b, lines[0][0])), number(token(b, lines[0][1]))) {
            (Some(_), Some(num_wires)) => if num_wires < NUM_INPUTS || num_wires < NUM_OUTPUTS {
                Err(ParseError::BadHeader)
            } else {
                match gates(b, lines, num_wires as nat, lines.len()) {
                    Err(e) => Err(e),
                    Ok((w, m)) => if w.len() != num_wires {
                        Err(ParseError::WireCountMismatch)
                    } else {
                        match output_wires(m) {
                            Err(e) => Err(e),
                            Ok(o) => Ok((w, o)),
                        }
                    },
                }
            },
            _ => Err(ParseError::BadNumber),
        }
    }
}

/// Reads one gate line.
#[verifier::rlimit(20)]
fn gate_line(
    b: &[u8],
    line: &Vec<(usize, usize)>,
    map: &Vec<Option<WireId>>,
    nwires: usize,
    num_wires: usize,
) -> (r: Result<(WireBody, usize), ParseError>)
    requires
        line@.len() > 0,
        forall|t: int| 0 <= t < line@.len() ==> span_ok(b@, #[trigger] line@[t]),
    ensures
        r == gate_step(b@, line@, map@, nwires as nat, num_wires as nat),
{
    let n = line.len();
    let name = line[n - 1];
    let xor_bytes: Vec<u8> = vec![0x58u8, 0x4f, 0x52];
    let and_bytes: Vec<u8> = vec![0x41u8, 0x4e, 0x44];
    let inv_bytes: Vec<u8> = vec![0x49u8, 0x4e, 0x56];
    proof {
        assert(xor_bytes@ =~= xor_word());
        assert(and_bytes@ =~= and_word());
        assert(inv_bytes@ =~= inv_word());
    }
    let is_xor = token_is(b, name, &xor_bytes);
    let is_and = token_is(b, name, &and_bytes);
    let is_inv = token_is(b, name, &inv_bytes);
    if !is_xor && !is_and && !is_inv {
        return Err(ParseError::UnknownGate);
    }
    let n_in: usize = if is_inv {
        1
    } else {
        2
    };
    if n != n_in + 4 {
        return Err(ParseError::BadGate);
    }
    let ins = number_at(b, line, 0)?;
    let outs = number_at(b, line, 1)?;
    if ins != n_in || outs != 1 {
        return Err(ParseError::BadGate);
    }
    let in0 = mapped(map, number_at(b, line, 2)?)?;
    let body = if is_inv {
        WireBody::Inv(in0)
    } else {
        let in1 = mapped(map, number_at(b, line, 3)?)?;
        if is_xor {
            WireBody::Xor(in0, in1)
        } else {
            WireBody::And(in0, in1)
        }
    };
    let output = number_at(b, line, n_in + 2)?;
    if output >= map.len() {
        return Err(ParseError::WireRedefined);
    }
    if map[output].is_some() {
        return Err(ParseError::WireRedefined);
    }
    if nwires >= num_wires {
        return Err(ParseError::WireCountMismatch);
    }
    Ok((body, output))
}

/// The mapping from Bristol wires to circuit wires points below `n`.
pub open spec fn map_below(map: Seq<Option<WireId>>, n: nat) -> bool {
    forall|i: int| 0 <= i < map.len() ==> (#[trigger] map[i] matches Some(x) ==> x < n)
}

/// Parses a Bristol-format description of the permutation: a header with
/// the numbers of gates and wires, a line with the input and output counts,
/// then one gate per line (`2 1 a b out XOR`, `2 1 a b out AND`,
/// `1 1 a out INV`). The first wires are the inputs, the last ones the
/// outputs.
#[verifier::rlimit(20)]
pub fn parse_circuit(src: &str) -> (r: Result<Circuit, ParseError>)
    ensures
        match r {
            Ok(c) => parse_spec(src.spec_bytes()) == Ok::<(Seq<WireBody>, Seq<WireId>), ParseError>(
                (c.wires@, c.outputs@),
            ),
            Err(e) => parse_spec(src.spec_bytes()) == Err::<(Seq<WireBody>, Seq<WireId>), ParseError>(e),
        },
        r matches Ok(c) ==> {
            &&& c.wf()
            &&& c.wires@.len() >= NUM_INPUTS
            &&& c.outputs@.len() == NUM_OUTPUTS
            &&& forall|k: int| 0 <= k < NUM_OUTPUTS ==> #[trigger] c.outputs@[k] < c.wires@.len()
        },
{
    let b = src.as_bytes();
    let blen = b.len();
    let lines = tokenize(b);
    let ghost tl = token_lines(b@);
    proof {
        lemma_scan_ok(b@, 0, seq![], seq![], None);
        assert forall|l: int| 0 <= l < lines@.len() implies (#[trigger] lines@[l])@ == tl[l] by {
            assert(lines_view(lines@)[l] == lines@[l]@);
        }
    }
    if lines.len() < 1 || lines[0].len() < 2 {
        return Err(ParseError::BadHeader);
    }
    if lines.len() < 2 {
        return Err(ParseError::MissingIoLine);
    }
    let _num_gates = number_at(b, &lines[0], 0)?;
    let num_wires = number_at(b, &lines[0], 1)?;
    if num_wires < NUM_INPUTS || num_wires < NUM_OUTPUTS {
        return Err(ParseError::BadHeader);
    }
    let mut map: Vec<Option<WireId>> = Vec::new();
    let mut k: usize = 0;
    while k < num_wires
        invariant
            k <= num_wires,
            map@.len() == k,
            forall|i: int| 0 <= i < k ==> map@[i] is None,
        decreases num_wires - k,
    {
        map.push(None);
        k = k + 1;
    }
    let mut circuit = Circuit::new();
    let mut i: usize = 0;
    while i < NUM_INPUTS
        invariant
            i <= NUM_INPUTS <= num_wires,
            map@.len() == num_wires,
            circuit.wf(),
            circuit.wires@.len() == i,
            circuit.outputs@.len() == 0,
            forall|j: int| 0 <= j < i ==> circuit.wires@[j] == WireBody::Input(j as usize),
            forall|j: int| 0 <= j < i ==> map@[j] == Some(j as usize),
            forall|j: int| i <= j < num_wires ==> map@[j] is None,
        decreases NUM_INPUTS - i,
    {
        let w = circuit.add_wire(WireBody::Input(i));
        map.set(i, Some(w));
        i = i + 1;
    }
    proof {
        assert(circuit.wires@ =~= input_wires());
        assert(map@ =~= input_map(num_wires as nat));
    }
    let mut l: usize = 2;
    while l < lines.len()
        invariant
            2 <= l <= lines@.len(),
            b@ == src.spec_bytes(),
            tl == token_lines(b@),
            lines@.len() == tl.len(),
            forall|a: int| 0 <= a < lines@.len() ==> (#[trigger] lines@[a])@ == tl[a],
            scan_ok(b@, tl, seq![]),
            tl.len() >= 2,
            tl[0].len() >= 2,
            number(token(b@, tl[0][0])) is Some,
            number(token(b@, tl[0][1])) == Some(num_wires),
            NUM_INPUTS <= num_wires,
            map@.len() == num_wires,
            circuit.wf(),
            circuit.wires@.len() >= NUM_INPUTS,
            circuit.wires@.len() <= num_wires,
            circuit.outputs@.len() == 0,
            map_below(map@, circuit.wires@.len() as nat),
            gates(b@, tl, num_wires as nat, l as nat) == Ok::<
                (Seq<WireBody>, Seq<Option<WireId>>),
                ParseError,
            >((circuit.wires@, map@)),
        decreases lines@.len() - l,
    {
        let ghost prev = (circuit.wires@, map@);
        proof {
            assert(tl[l as int].len() > 0);
        }
        let step = gate_line(b, &lines[l], &map, circuit.wires.len(), num_wires);
        match step {
            Err(e) => {
                proof {
                    lemma_gates_err(b@, tl, num_wires as nat, (l + 1) as nat, tl.len());
                }
                return Err(e);
            },
            Ok((body, output)) => {
                proof {
                    assert(gates(b@, tl, num_wires as nat, (l + 1) as nat) == Ok::<
                        (Seq<WireBody>, Seq<Option<WireId>>),
                        ParseError,
                    >((prev.0.push(body), prev.1.update(output as int, Some(prev.0.len() as usize)))));
                    match body {
                        WireBody::Inv(x) => {
                            assert(operands(body)[0] == x);
                        },
                        WireBody::Xor(x, y) | WireBody::And(x, y) => {
                            assert(operands(body).len() <= 2);
                        },
                        WireBody::Input(_) => {},
                    }
                }
                let w = circuit.add_wire(body);
                map.set(output, Some(w));
            },
        }
        l = l + 1;
    }
    if circuit.wires.len() != num_wires {
        return Err(ParseError::WireCountMismatch);
    }
    let mut outputs: Vec<WireId> = Vec::new();
    let first = num_wires - NUM_OUTPUTS;
    let mut o: usize = first;
    while o < num_wires
        invariant
            b@ == src.spec_bytes(),
            tl == token_lines(b@),
            tl.len() >= 2,
            tl[0].len() >= 2,
            number(token(b@, tl[0][0])) is Some,
            number(token(b@, tl[0][1])) == Some(num_wires),
            gates(b@, tl, num_wires as nat, tl.len()) == Ok::<
                (Seq<WireBody>, Seq<Option<WireId>>),
                ParseError,
            >((circuit.wires@, map@)),
            circuit.wf(),
            circuit.outputs@.len() == 0,
            NUM_OUTPUTS <= num_wires,
            first == num_wires - NUM_OUTPUTS,
            first <= o <= num_wires,
            map@.len() == num_wires,
            circuit.wires@.len() == num_wires,
            map_below(map@, circuit.wires@.len() as nat),
            outputs@.len() == o - first,
            forall|k: int| 0 <= k < outputs@.len() ==> map@[first + k] == Some(#[trigger] outputs@[k]),
            forall|k: int| 0 <= k < outputs@.len() ==> #[trigger] outputs@[k] < num_wires,
        decreases num_wires - o,
    {
        match map[o] {
            Some(x) => {
                outputs.push(x);
            },
            None => {
                proof {
                    assert(map@[first + (o - first)] is None);
                }
                return Err(ParseError::UndefinedWire);
            },
        }
        o = o + 1;
    }
    proof {
        assert forall|k: int| 0 <= k < NUM_OUTPUTS implies #[trigger] map@[first + k] is Some by {
            assert(map@[first + k] == Some(outputs@[k]));
        }
        assert(outputs@ =~= Seq::new(NUM_OUTPUTS as nat, |k: int| map@[first + k]->Some_0));
        assert(output_wires(map@) == Ok::<Seq<WireId>, ParseError>(outputs@));
    }
    circuit.outputs = outputs;
    Ok(circuit)
}

// ---------------------------------------------------------------------------
// Plaintext evaluation.

/// Value of the wire `body` given the values of the earlier wires and the
/// input; input wire `i` reads input bit `i % NUM_INPUTS`.
pub open spec fn wire_value(body: WireBody, vals: Seq<bool>, input: Seq<bool>) -> bool {
    match body {
        WireBody::Inv(x) => !vals[x as int],
        WireBody::Xor(a, b) => vals[a as int] != vals[b as int],
        WireBody::And(a, b) => vals[a as int] && vals[b as int],
        WireBody::Input(i) => input[(i % NUM_INPUTS) as int],
    }
}

/// The values of the first `k` wires of a circuit on `input`.
pub open spec fn wire_values(wires: Seq<WireBody>, input: Seq<bool>, k: nat) -> Seq<bool>
    decreases k,
{
    if k == 0 {
        seq![]
    } else {
        let prev = wire_values(wires, input, (k - 1) as nat);
        prev.push(wire_value(wires[k - 1], prev, input))
    }
}

pub proof fn lemma_wire_values_len(wires: Seq<WireBody>, input: Seq<bool>, k: nat)
    ensures
        wire_values(wires, input, k).len() == k,
    decreases k,
{
    if k > 0 {
        lemma_wire_values_len(wires, input, (k - 1) as nat);
    }
}

/// Value of wire `j` once the whole circuit is evaluated on `x`.
pub open spec fn node_value(wires: Seq<WireBody>, x: Seq<bool>, j: int) -> bool {
    wire_values(wires, x, wires.len())[j]
}

/// The values of the outputs of a circuit evaluated on `x`.
pub open spec fn eval_outputs(wires: Seq<WireBody>, outputs: Seq<WireId>, x: Seq<bool>) -> Seq<bool> {
    Seq::new(outputs.len(), |k: int| node_value(wires, x, outputs[k] as int))
}

/// `k` evaluations in a row, each on the outputs of the one before.
pub open spec fn eval_iter(wires: Seq<WireBody>, outputs: Seq<WireId>, x: Seq<bool>, k: nat) -> Seq<bool>
    decreases k,
{
    if k == 0 {
        x
    } else {
        eval_outputs(wires, outputs, eval_iter(wires, outputs, x, (k - 1) as nat))
    }
}

/// The first `k` values depend on the first `k` wires only.
proof fn lemma_wire_values_prefix(ws1: Seq<WireBody>, ws2: Seq<WireBody>, x: Seq<bool>, k: nat)
    requires
        k <= ws1.len(),
        k <= ws2.len(),
        forall|j: int| 0 <= j < k ==> ws1[j] == ws2[j],
    ensures
        wire_values(ws1, x, k) == wire_values(ws2, x, k),
    decreases k,
{
    if k > 0 {
        lemma_wire_values_prefix(ws1, ws2, x, (k - 1) as nat);
    }
}

/// Evaluating further keeps the values found so far.
proof fn lemma_wire_values_extend(ws: Seq<WireBody>, x: Seq<bool>, j: int, k: nat, m: nat)
    requires
        0 <= j < k <= m,
    ensures
        wire_values(ws, x, m)[j] == wire_values(ws, x, k)[j],
    decreases m,
{
    if m > k {
        lemma_wire_values_extend(ws, x, j, k, (m - 1) as nat);
        lemma_wire_values_len(ws, x, (m - 1) as nat);
    }
}

/// Wire `j` of a circuit takes the value its gate gives it.
proof fn lemma_node_value_step(ws: Seq<WireBody>, x: Seq<bool>, j: int)
    requires
        0 <= j < ws.len(),
    ensures
        node_value(ws, x, j) == wire_value(ws[j], wire_values(ws, x, j as nat), x),
        forall|i: int| 0 <= i < j ==> #[trigger] wire_values(ws, x, j as nat)[i] == node_value(ws, x, i),
{
    lemma_wire_values_extend(ws, x, j, (j + 1) as nat, ws.len());
    lemma_wire_values_len(ws, x, j as nat);
    assert forall|i: int| 0 <= i < j implies #[trigger] wire_values(ws, x, j as nat)[i] == node_value(
        ws,
        x,
        i,
    ) by {
        lemma_wire_values_extend(ws, x, i, j as nat, ws.len());
    }
}

/// Appending a wire keeps the values of the others.
proof fn lemma_node_value_push(ws: Seq<WireBody>, g: WireBody, x: Seq<bool>)
    ensures
        forall|j: int| 0 <= j < ws.len() ==> #[trigger] node_value(ws.push(g), x, j) == node_value(ws, x, j),
        node_value(ws.push(g), x, ws.len() as int) == wire_value(g, wire_values(ws, x, ws.len()), x),
{
    let ws2 = ws.push(g);
    lemma_wire_values_prefix(ws2, ws, x, ws.len());
    lemma_wire_values_len(ws, x, ws.len());
}

/// Evaluates the circuit on `input` and returns the values of its outputs.
pub fn evaluate(circuit: &Circuit, input: &[bool; NUM_INPUTS]) -> (r: Vec<bool>)
    requires
        circuit.wf(),
        forall|k: int|
            0 <= k < circuit.outputs@.len() ==> #[trigger] circuit.outputs@[k]
                < circuit.wires@.len(),
    ensures
        r@ == eval_outputs(circuit.wires@, circuit.outputs@, input@),
{
    let ghost ws = circuit.wires@;
    let mut values: Vec<bool> = Vec::new();
    let mut i: usize = 0;
    while i < circuit.wires.len()
        invariant
            circuit.wf(),
            ws == circuit.wires@,
            i <= ws.len(),
            values@ == wire_values(ws, input@, i as nat),
        decreases ws.len() - i,
    {
        proof {
            lemma_wire_values_len(ws, input@, i as nat);
            assert(body_reads_below(ws[i as int], i as nat));
        }
        let v = match circuit.wires[i] {
            WireBody::Inv(x) => {
                assert(operands(ws[i as int])[0] == x);
                !values[x]
            },
            WireBody::Xor(a, b) => {
                assert(operands(ws[i as int])[0] == a);
                assert(a == b || operands(ws[i as int])[1] == b);
                values[a] != values[b]
            },
            WireBody::And(a, b) => {
                assert(operands(ws[i as int])[0] == a);
                assert(a == b || operands(ws[i as int])[1] == b);
                values[a] && values[b]
            },
            WireBody::Input(idx) => input[idx % NUM_INPUTS],
        };
        values.push(v);
        i = i + 1;
    }
    proof {
        lemma_wire_values_len(ws, input@, ws.len() as nat);
    }
    let mut out: Vec<bool> = Vec::new();
    let mut k: usize = 0;
    while k < circuit.outputs.len()
        invariant
            k <= circuit.outputs@.len(),
            values@ == wire_values(ws, input@, ws.len() as nat),
            values@.len() == ws.len(),
            ws == circuit.wires@,
            forall|t: int|
                0 <= t < circuit.outputs@.len() ==> #[trigger] circuit.outputs@[t] < ws.len(),
            out@.len() == k,
            forall|t: int| 0 <= t < k ==> #[trigger] out@[t] == values@[circuit.outputs@[t] as int],
        decreases circuit.outputs@.len() - k,
    {
        out.push(values[circuit.outputs[k]]);
        k = k + 1;
    }
    proof {
        assert(out@ =~= eval_outputs(circuit.wires@, circuit.outputs@, input@));
    }
    out
}

// ---------------------------------------------------------------------------
// Chaining copies of a circuit.

/// A copy of a list of wire indices.
fn copy_ids(v: &Vec<WireId>) -> (r: Vec<WireId>)
    ensures
        r@ == v@,
{
    let mut r: Vec<WireId> = Vec::new();
    let mut k: usize = 0;
    while k < v.len()
        invariant
            k <= v@.len(),
            r@ == v@.subrange(0, k as int),
        decreases v@.len() - k,
    {
        r.push(v[k]);
        k = k + 1;
        proof {
            assert(r@ =~= v@.subrange(0, k as int));
        }
    }
    proof {
        assert(r@ =~= v@);
    }
    r
}

impl Circuit {
    /// A copy of the circuit.
    pub fn copy(&self) -> (r: Circuit)
        ensures
            r.wires@ == self.wires@,
            r.outputs@ == self.outputs@,
            r.reverse_deps@.len() == self.reverse_deps@.len(),
            forall|j: int|
                0 <= j < self.reverse_deps@.len() ==> (#[trigger] r.reverse_deps@[j])@
                    == self.reverse_deps@[j]@,
    {
        let mut wires: Vec<WireBody> = Vec::new();
        let mut k: usize = 0;
        while k < self.wires.len()
            invariant
                k <= self.wires@.len(),
                wires@ == self.wires@.subrange(0, k as int),
            decreases self.wires@.len() - k,
        {
            wires.push(self.wires[k]);
            k = k + 1;
            proof {
                assert(wires@ =~= self.wires@.subrange(0, k as int));
            }
        }
        proof {
            assert(wires@ =~= self.wires@);
        }
        let mut reverse_deps: Vec<Vec<WireId>> = Vec::new();
        let mut k: usize = 0;
        while k < self.reverse_deps.len()
            invariant
                k <= self.reverse_deps@.len(),
                reverse_deps@.len() == k,
                forall|j: int| 0 <= j < k ==> (#[trigger] reverse_deps@[j])@ == self.reverse_deps@[j]@,
            decreases self.reverse_deps@.len() - k,
        {
            reverse_deps.push(copy_ids(&self.reverse_deps[k]));
            k = k + 1;
        }
        Circuit { wires, reverse_deps, outputs: copy_ids(&self.outputs) }
    }
}

/// Chains `copies` instances of `single`: input wire `i` of each instance
/// after the first is output `i % NUM_OUTPUTS` of the instance before it, so
/// the chain computes the permutation `copies` times.
#[verifier::rlimit(40)]
pub fn chain_circuit(single: &Circuit, copies: usize) -> (r: Circuit)
    requires
        single.wf(),
        copies >= 1,
        single.outputs@.len() == NUM_OUTPUTS,
        forall|k: int| 0 <= k < NUM_OUTPUTS ==> #[trigger] single.outputs@[k] < single.wires@.len(),
        single.wires@.len() * copies < usize::MAX,
    ensures
        r.wf(),
        r.outputs@.len() == NUM_OUTPUTS,
        forall|k: int| 0 <= k < NUM_OUTPUTS ==> #[trigger] r.outputs@[k] < r.wires@.len(),
        forall|x: Seq<bool>|
            #[trigger] eval_outputs(r.wires@, r.outputs@, x) == eval_iter(
                single.wires@,
                single.outputs@,
                x,
                copies as nat,
            ),
        r.wires@.len() <= single.wires@.len() * copies,
        copies == 1 ==> r.wires@ == single.wires@ && r.outputs@ == single.outputs@,
{
    let ghost sw = single.wires@;
    let ghost so = single.outputs@;
    let n = single.wires.len();
    let mut circuit = single.copy();
    let mut c: usize = 1;
    proof {
        assert forall|x: Seq<bool>| #[trigger] eval_outputs(circuit.wires@, circuit.outputs@, x) == eval_iter(
            sw,
            so,
            x,
            1,
        ) by {
            assert(eval_iter(sw, so, x, 0) == x);
        }
    }
    while c < copies
        invariant
            1 <= c <= copies,
            n == single.wires@.len(),
            sw == single.wires@,
            so == single.outputs@,
            single.wf(),
            single.outputs@.len() == NUM_OUTPUTS,
            forall|k: int| 0 <= k < NUM_OUTPUTS ==> #[trigger] single.outputs@[k] < n,
            n * copies < usize::MAX,
            circuit.wf(),
            circuit.outputs@.len() == NUM_OUTPUTS,
            forall|k: int| 0 <= k < NUM_OUTPUTS ==> #[trigger] circuit.outputs@[k] < circuit.wires@.len(),
            forall|x: Seq<bool>|
                #[trigger] eval_outputs(circuit.wires@, circuit.outputs@, x) == eval_iter(sw, so, x, c as nat),
            circuit.wires@.len() <= n * c,
            c == 1 ==> circuit.wires@ == single.wires@ && circuit.outputs@ == single.outputs@,
        decreases copies - c,
    {
        assert(n * c + n <= n * copies) by (nonlinear_arith)
            requires
                c < copies,
        ;
        let mut mapping: Vec<WireId> = Vec::new();
        let ghost start = circuit.wires@.len();
        let ghost outs = circuit.outputs@;
        proof {
            assert forall|x: Seq<bool>, k: int| 0 <= k < NUM_OUTPUTS implies #[trigger] node_value(
                circuit.wires@,
                x,
                outs[k] as int,
            ) == eval_iter(sw, so, x, c as nat)[k] by {
                assert(eval_outputs(circuit.wires@, circuit.outputs@, x)[k] == node_value(
                    circuit.wires@,
                    x,
                    outs[k] as int,
                ));
            }
        }
        let mut t: usize = 0;
        while t < n
            invariant
                t <= n,
                n == single.wires@.len(),
                sw == single.wires@,
                so == single.outputs@,
                single.wf(),
                circuit.wf(),
                circuit.outputs@ == outs,
                outs.len() == NUM_OUTPUTS,
                forall|k: int| 0 <= k < NUM_OUTPUTS ==> #[trigger] outs[k] < circuit.wires@.len(),
                circuit.wires@.len() <= start + t,
                start <= n * c,
                n * c + n <= n * copies,
                n * copies < usize::MAX,
                mapping@.len() == t,
                forall|k: int| 0 <= k < t ==> #[trigger] mapping@[k] < circuit.wires@.len(),
                forall|x: Seq<bool>, k: int|
                    0 <= k < NUM_OUTPUTS ==> #[trigger] node_value(circuit.wires@, x, outs[k] as int)
                        == eval_iter(sw, so, x, c as nat)[k],
                forall|x: Seq<bool>, k: int|
                    0 <= k < t ==> #[trigger] node_value(circuit.wires@, x, mapping@[k] as int)
                        == node_value(sw, eval_iter(sw, so, x, c as nat), k),
            decreases n - t,
        {
            proof {
                assert(body_reads_below(sw[t as int], t as nat));
            }
            let ghost before = circuit.wires@;
            let body = single.wires[t];
            let m = match body {
                WireBody::Inv(x) => {
                    assert(operands(sw[t as int])[0] == x);
                    circuit.add_wire(WireBody::Inv(mapping[x]))
                },
                WireBody::Xor(x, y) => {
                    assert(operands(sw[t as int])[0] == x);
                    assert(x == y || operands(sw[t as int])[1] == y);
                    let g = WireBody::Xor(mapping[x], mapping[y]);
                    assert(operands(g).len() <= 2);
                    circuit.add_wire(g)
                },
                WireBody::And(x, y) => {
                    assert(operands(sw[t as int])[0] == x);
                    assert(x == y || operands(sw[t as int])[1] == y);
                    let g = WireBody::And(mapping[x], mapping[y]);
                    assert(operands(g).len() <= 2);
                    circuit.add_wire(g)
                },
                WireBody::Input(i) => circuit.outputs[i % NUM_OUTPUTS],
            };
            proof {
                let added = circuit.wires@.len() > before.len();
                assert forall|x: Seq<bool>, k: int| 0 <= k < NUM_OUTPUTS implies #[trigger] node_value(
                    circuit.wires@,
                    x,
                    outs[k] as int,
                ) == eval_iter(sw, so, x, c as nat)[k] by {
                    if added {
                        lemma_node_value_push(before, circuit.wires@.last(), x);
                        assert(circuit.wires@ == before.push(circuit.wires@.last()));
                        assert(node_value(before, x, outs[k] as int) == eval_iter(sw, so, x, c as nat)[k]);
                    }
                }
                let newmap = mapping@.push(m);
                assert forall|x: Seq<bool>, k: int| 0 <= k < t + 1 implies newmap[k] < circuit.wires@.len()
                    && #[trigger] node_value(circuit.wires@, x, newmap[k] as int) == node_value(
                    sw,
                    eval_iter(sw, so, x, c as nat),
                    k,
                ) by {
                    let y = eval_iter(sw, so, x, c as nat);
                    lemma_node_value_step(sw, y, t as int);
                    if added {
                        let g = circuit.wires@.last();
                        assert(circuit.wires@ == before.push(g));
                        lemma_node_value_push(before, g, x);
                    }
                    if k < t {
                        assert(node_value(before, x, mapping@[k] as int) == node_value(sw, y, k));
                    } else {
                        match body {
                            WireBody::Inv(a) => {
                                assert(node_value(before, x, mapping@[a as int] as int) == node_value(sw, y, a as int));
                            },
                            WireBody::Xor(a, bb) | WireBody::And(a, bb) => {
                                assert(node_value(before, x, mapping@[a as int] as int) == node_value(sw, y, a as int));
                                assert(node_value(before, x, mapping@[bb as int] as int) == node_value(sw, y, bb as int));
                            },
                            WireBody::Input(i) => {
                                assert(node_value(before, x, outs[(i % NUM_OUTPUTS) as int] as int) == y[(i % NUM_OUTPUTS) as int]);
                            },
                        }
                    }
                }
            }
            mapping.push(m);
            t = t + 1;
        }
        let mut outputs: Vec<WireId> = Vec::new();
        let mut k: usize = 0;
        while k < NUM_OUTPUTS
            invariant
                k <= NUM_OUTPUTS,
                single.outputs@.len() == NUM_OUTPUTS,
                so == single.outputs@,
                forall|j: int| 0 <= j < NUM_OUTPUTS ==> #[trigger] single.outputs@[j] < n,
                mapping@.len() == n,
                forall|j: int| 0 <= j < n ==> #[trigger] mapping@[j] < circuit.wires@.len(),
                outputs@.len() == k,
                forall|j: int| 0 <= j < k ==> #[trigger] outputs@[j] == mapping@[so[j] as int],
            decreases NUM_OUTPUTS - k,
        {
            let o = single.outputs[k];
            outputs.push(mapping[o]);
            k = k + 1;
        }
        circuit.outputs = outputs;
        proof {
            assert forall|x: Seq<bool>| #[trigger] eval_outputs(circuit.wires@, circuit.outputs@, x)
                == eval_iter(sw, so, x, (c + 1) as nat) by {
                let y = eval_iter(sw, so, x, c as nat);
                assert forall|j: int| 0 <= j < NUM_OUTPUTS implies #[trigger] eval_outputs(
                    circuit.wires@,
                    circuit.outputs@,
                    x,
                )[j] == eval_outputs(sw, so, y)[j] by {
                    assert(circuit.outputs@[j] == mapping@[so[j] as int]);
                    assert(node_value(circuit.wires@, x, mapping@[so[j] as int] as int) == node_value(
                        sw,
                        y,
                        so[j] as int,
                    ));
                }
                assert(eval_outputs(circuit.wires@, circuit.outputs@, x) =~= eval_outputs(sw, so, y));
            }
        }
        c = c + 1;
        assert(circuit.wires@.len() <= n * c) by (nonlinear_arith)
            requires
                circuit.wires@.len() <= start + n,
                start <= n * (c - 1),
        ;
    }
    assert(n * c <= n * copies) by (nonlinear_arith)
        requires
            c <= copies,
    ;
    circuit
}

// ---------------------------------------------------------------------------
// The plaintext permutation.

/// The state with its bits in reverse order.
pub open spec fn reversed(s: Seq<bool>) -> Seq<bool> {
    Seq::new(s.len(), |i: int| s[s.len() - 1 - i])
}

/// Bit `i` after the second pass of the permutation over the reversed state
/// `r`: bits at multiples of 7 are flipped, and each bit at a nonzero multiple
/// of 11 takes the exclusive or with the (already updated) bit before it.
pub open spec fn keccak_bit(r: Seq<bool>, i: nat) -> bool
    decreases i,
{
    let flipped = if i % 7 == 0 {
        !r[i as int]
    } else {
        r[i as int]
    };
    if i % 11 == 0 && i > 0 {
        flipped != keccak_bit(r, (i - 1) as nat)
    } else {
        flipped
    }
}

/// The permutation on a whole state.
pub open spec fn keccak_spec(s: Seq<bool>) -> Seq<bool> {
    Seq::new(s.len(), |i: int| keccak_bit(reversed(s), i as nat))
}

/// The simplified permutation that the benchmark circuit is checked against:
/// reverse the bits, then flip every seventh and mix every eleventh with its
/// predecessor.
#[verifier::rlimit(20)]
pub fn do_keccak(state: &mut [bool; NUM_INPUTS])
    ensures
        final(state)@ == keccak_spec(old(state)@),
{
    let ghost s0 = state@;
    let mut i: usize = 0;
    while i < NUM_INPUTS / 2
        invariant
            i <= NUM_INPUTS / 2,
            state@.len() == NUM_INPUTS,
            s0.len() == NUM_INPUTS,
            forall|j: int|
                0 <= j < NUM_INPUTS ==> #[trigger] state@[j] == if j < i || j >= NUM_INPUTS - i {
                    s0[NUM_INPUTS - 1 - j]
                } else {
                    s0[j]
                },
        decreases NUM_INPUTS / 2 - i,
    {
        let temp = state[i];
        let other = state[NUM_INPUTS - 1 - i];
        state[i] = other;
        state[NUM_INPUTS - 1 - i] = temp;
        i = i + 1;
    }
    let ghost r = state@;
    assert(r == reversed(s0));
    let mut i: usize = 0;
    while i < NUM_INPUTS
        invariant
            i <= NUM_INPUTS,
            state@.len() == NUM_INPUTS,
            r.len() == NUM_INPUTS,
            forall|j: int| 0 <= j < i ==> #[trigger] state@[j] == keccak_bit(r, j as nat),
            forall|j: int| i <= j < NUM_INPUTS ==> #[trigger] state@[j] == r[j],
        decreases NUM_INPUTS - i,
    {
        if i % 7 == 0 {
            let b = state[i];
            state[i] = !b;
        }
        if i % 11 == 0 && i > 0 {
            let b = state[i];
            let p = state[i - 1];
            state[i] = b ^ p;
        }
        i = i + 1;
    }
    assert(state@ == keccak_spec(s0));
}

} // verus!
