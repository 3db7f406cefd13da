//! Two-pass assembler from source text to the programs of the 2x2 grid,
//! and the encoder of those programs into one word stream.
//!
//! The first pass reads the lines in order: it switches the current node on
//! `NODE (row,col)`, binds each `name:` to the number of instructions the
//! current node has so far, and keeps every other line for that node. The
//! second pass parses the kept lines node by node, in row-major order,
//! resolving labels through the node's own table.
use crate::instruction::{dst_named, op_named, src_named, Dst, Inst, Op, ParseError, Src};
use crate::text::{
    chars_of, has_prefix, same_chars, split_chars, split_on,
    split_words, starts_with, strip_back, strip_end, strip_front, strip_start, trim, trimmed,
    unsigned_decimal, unsigned_within, upper_of, views, words,
};
use vstd::prelude::*;

verus! {

/// The programs of the grid: `programs[row][col]` is the instruction list
/// of the node at (row, col).
pub type Programs = Vec<Vec<Vec<Inst>>>;

/// What went wrong on a line of source.
#[derive(Debug, Clone, Copy, PartialEq, Eq, Structural)]
pub enum AsmErrorKind {
    /// A `NODE` coordinate that is malformed or outside the 2x2 grid.
    BadCoordinate,
    /// An operation without the operands it takes.
    MissingOperand,
    /// An operation followed by more operands than it takes.
    ExtraOperand,
    /// An instruction line with no token.
    EmptyInstruction,
    /// An unknown mnemonic or port, or a malformed operand.
    Parse(ParseError),
}

/// An assembly error and the line (counted from 1) where it was found.
#[derive(Debug, Clone, Copy, PartialEq, Eq, Structural)]
pub struct AsmError {
    pub line: usize,
    pub kind: AsmErrorKind,
}

/// What the first pass has gathered: the current node (`2 * row + col`),
/// and for each node its labels (name, instruction count at the
/// declaration) and its instruction lines (line number, trimmed text).
pub struct Scan {
    pub current: Option<nat>,
    pub labels: Seq<Seq<(Seq<char>, nat)>>,
    pub pending: Seq<Seq<(nat, Seq<char>)>>,
}

pub open spec fn scan_start() -> Scan {
    Scan {
        current: None,
        labels: Seq::new(4, |i: int| Seq::empty()),
        pending: Seq::new(4, |i: int| Seq::empty()),
    }
}

pub open spec fn is_skipped(line: Seq<char>) -> bool {
    line.len() == 0 || starts_with(line, seq!['#']) || starts_with(line, seq!['/', '/'])
}

pub open spec fn is_node_decl(line: Seq<char>) -> bool {
    starts_with(line, seq!['N', 'O', 'D', 'E'])
}

pub open spec fn is_label_decl(line: Seq<char>) -> bool {
    line.len() > 0 && line.last() == ':'
}

/// The node index `2 * row + col` written by a coordinate token such as
/// `(0,1)`: parentheses stripped from both ends, exactly one comma, and
/// each coordinate a decimal 0 or 1 (surrounding whitespace allowed).
pub open spec fn node_coords(tok: Seq<char>) -> Option<(usize, usize)> {
    let parts = split_on(strip_end(strip_start(tok, seq!['(', ')']), seq!['(', ')']), ',');
    if parts.len() == 2 {
        match (unsigned_within(trim(parts[0]), 1), unsigned_within(trim(parts[1]), 1)) {
            (Some(r), Some(c)) => Some((r as usize, c as usize)),
            _ => None,
        }
    } else {
        None
    }
}

/// The first pass on the line numbered `number`.
pub open spec fn scan_line(st: Scan, number: nat, raw: Seq<char>) -> Result<Scan, AsmError> {
    let line = trim(raw);
    if is_skipped(line) {
        Ok(st)
    } else if is_node_decl(line) {
        let parts = words(line);
        if parts.len() >= 2 {
            match node_coords(parts[1]) {
                Some((r, c)) => Ok(Scan { current: Some((2 * r + c) as nat), ..st }),
                None => Err(AsmError { line: number as usize, kind: AsmErrorKind::BadCoordinate }),
            }
        } else {
            Ok(st)
        }
    } else if is_label_decl(line) {
        match st.current {
            Some(n) => Ok(
                Scan {
                    labels: st.labels.update(
                        n as int,
                        st.labels[n as int].push(
                            (strip_end(line, seq![':']), st.pending[n as int].len()),
                        ),
                    ),
                    ..st
                },
            ),
            None => Ok(st),
        }
    } else {
        match st.current {
            Some(n) => Ok(
                Scan {
                    pending: st.pending.update(n as int, st.pending[n as int].push((number, line))),
                    ..st
                },
            ),
            None => Ok(st),
        }
    }
}

/// The first pass over `lines`, the first line numbered 1.
pub open spec fn scan_lines(lines: Seq<Seq<char>>) -> Result<Scan, AsmError>
    decreases lines.len(),
{
    if lines.len() == 0 {
        Ok(scan_start())
    } else {
        match scan_lines(lines.drop_last()) {
            Ok(st) => scan_line(st, lines.len(), lines.last()),
            Err(e) => Err(e),
        }
    }
}

/// The instruction count bound to `name` by its latest declaration.
pub open spec fn label_pc(labels: Seq<(Seq<char>, nat)>, name: Seq<char>) -> Option<nat>
    decreases labels.len(),
{
    if labels.len() == 0 {
        None
    } else if labels.last().0 == name {
        Some(labels.last().1)
    } else {
        label_pc(labels.drop_last(), name)
    }
}

/// A source operand: a label of the node stands for the literal of its
/// instruction count; anything else is read as an operand.
pub open spec fn resolve_src(tok: Seq<char>, labels: Seq<(Seq<char>, nat)>) -> Result<
    Src,
    ParseError,
> {
    match label_pc(labels, tok) {
        Some(pc) => Ok(Src::Lit(pc as u32)),
        None => src_named(tok, upper_of(tok)),
    }
}

pub open spec fn takes_no_operand(op: Op) -> bool {
    op == Op::Nop || op == Op::Hlt || op == Op::Neg || op == Op::Sav || op == Op::Swp
}

/// How many operands `op` takes: none for NOP, HLT, NEG, SAV and SWP, two
/// for MOV, one for the others.
pub open spec fn operand_count(op: Op) -> nat {
    if takes_no_operand(op) {
        0
    } else if op == Op::Mov {
        2
    } else {
        1
    }
}

/// The instruction written by the tokens `parts`: the mnemonic, then
/// exactly as many operands as the operation takes. `MOV`'s source may end
/// in commas.
pub open spec fn inst_of(parts: Seq<Seq<char>>, labels: Seq<(Seq<char>, nat)>) -> Result<
    Inst,
    AsmErrorKind,
> {
    if parts.len() == 0 {
        Err(AsmErrorKind::EmptyInstruction)
    } else {
        match op_named(upper_of(parts[0])) {
            Err(e) => Err(AsmErrorKind::Parse(e)),
            Ok(op) => if parts.len() < 1 + operand_count(op) {
                Err(AsmErrorKind::MissingOperand)
            } else if parts.len() > 1 + operand_count(op) {
                Err(AsmErrorKind::ExtraOperand)
            } else if takes_no_operand(op) {
                Ok(Inst { op, src: Src::Nil, dst: Dst::Nil })
            } else if op == Op::Mov {
                match resolve_src(strip_end(parts[1], seq![',']), labels) {
                    Err(e) => Err(AsmErrorKind::Parse(e)),
                    Ok(src) => match dst_named(upper_of(parts[2])) {
                        Err(e) => Err(AsmErrorKind::Parse(e)),
                        Ok(dst) => Ok(Inst { op, src, dst }),
                    },
                }
            } else {
                match resolve_src(parts[1], labels) {
                    Err(e) => Err(AsmErrorKind::Parse(e)),
                    Ok(src) => Ok(Inst { op, src, dst: Dst::Nil }),
                }
            },
        }
    }
}

/// The second pass on one node: its lines parsed in order, stopping at the
/// first that fails.
pub open spec fn node_program(pending: Seq<(nat, Seq<char>)>, labels: Seq<(Seq<char>, nat)>) -> Result<
    Seq<Inst>,
    AsmError,
>
    decreases pending.len(),
{
    if pending.len() == 0 {
        Ok(Seq::empty())
    } else {
        match node_program(pending.drop_last(), labels) {
            Err(e) => Err(e),
            Ok(prev) => match inst_of(words(pending.last().1), labels) {
                Ok(i) => Ok(prev.push(i)),
                Err(k) => Err(AsmError { line: pending.last().0 as usize, kind: k }),
            },
        }
    }
}

/// The second pass on the first `k` nodes, in row-major order.
pub open spec fn node_programs(st: Scan, k: nat) -> Result<Seq<Seq<Inst>>, AsmError>
    decreases k,
{
    if k == 0 {
        Ok(Seq::empty())
    } else {
        match node_programs(st, (k - 1) as nat) {
            Err(e) => Err(e),
            Ok(prev) => match node_program(st.pending[k - 1], st.labels[k - 1]) {
                Ok(p) => Ok(prev.push(p)),
                Err(e) => Err(e),
            },
        }
    }
}

/// The four node programs laid out as two rows of two.
pub open spec fn grid_of(nodes: Seq<Seq<Inst>>) -> Seq<Seq<Seq<Inst>>> {
    seq![seq![nodes[0], nodes[1]], seq![nodes[2], nodes[3]]]
}

/// The grid that `text` assembles to, or the first error.
pub open spec fn assembled(text: Seq<char>) -> Result<Seq<Seq<Seq<Inst>>>, AsmError> {
    match scan_lines(split_on(text, '\n')) {
        Err(e) => Err(e),
        Ok(st) => match node_programs(st, 4) {
            Err(e) => Err(e),
            Ok(nodes) => Ok(grid_of(nodes)),
        },
    }
}

pub open spec fn programs_view(p: Programs) -> Seq<Seq<Seq<Inst>>> {
    p@.map_values(|row: Vec<Vec<Inst>>| row@.map_values(|prog: Vec<Inst>| prog@))
}

/// The exec state of the first pass.
struct Scanner {
    current: Option<usize>,
    labels: Vec<Vec<(Vec<char>, usize)>>,
    pending: Vec<Vec<(usize, Vec<char>)>>,
}

pub open spec fn label_view(l: Vec<(Vec<char>, usize)>) -> Seq<(Seq<char>, nat)> {
    l@.map_values(|e: (Vec<char>, usize)| (e.0@, e.1 as nat))
}

pub open spec fn pending_view(p: Vec<(usize, Vec<char>)>) -> Seq<(nat, Seq<char>)> {
    p@.map_values(|e: (usize, Vec<char>)| (e.0 as nat, e.1@))
}

impl Scanner {
    spec fn model(&self) -> Scan {
        Scan {
            current: match self.current {
                Some(n) => Some(n as nat),
                None => None,
            },
            labels: self.labels@.map_values(|l: Vec<(Vec<char>, usize)>| label_view(l)),
            pending: self.pending@.map_values(|p: Vec<(usize, Vec<char>)>| pending_view(p)),
        }
    }

    spec fn wf(&self) -> bool {
        &&& self.labels@.len() == 4
        &&& self.pending@.len() == 4
        &&& self.current matches Some(n) ==> n < 4
    }
}

/// Reads a coordinate token into (row, col).
fn parse_node_coords(s: &[char]) -> (r: Option<(usize, usize)>)
    ensures
        r == node_coords(s@),
{
    let parens = vec!['(', ')'];
    assert(parens@ =~= seq!['(', ')']);
    let inner = strip_front(s, &parens);
    let inner = strip_back(&inner, &parens);
    let coords = split_chars(&inner, ',');
    if coords.len() != 2 {
        return None;
    }
    let r = unsigned_decimal(&trimmed(&coords[0]), 1);
    let c = unsigned_decimal(&trimmed(&coords[1]), 1);
    match (r, c) {
        (Some(r), Some(c)) => Some((r as usize, c as usize)),
        _ => None,
    }
}

impl Scanner {
    fn new() -> (r: Scanner)
        ensures
            r.wf(),
            r.model() == scan_start(),
    {
        let r = Scanner {
            current: None,
            labels: vec![Vec::new(), Vec::new(), Vec::new(), Vec::new()],
            pending: vec![Vec::new(), Vec::new(), Vec::new(), Vec::new()],
        };
        assert forall|i: int| 0 <= i < 4 implies r.model().labels[i] =~= Seq::<
            (Seq<char>, nat),
        >::empty() && r.model().pending[i] =~= Seq::<(nat, Seq<char>)>::empty() by {}
        assert(r.model().labels =~= scan_start().labels);
        assert(r.model().pending =~= scan_start().pending);
        r
    }

    /// The first pass on the line numbered `number`.
    fn scan(&mut self, number: usize, raw: &[char]) -> (r: Result<(), AsmError>)
        requires
            old(self).wf(),
        ensures
            final(self).wf(),
            match scan_line(old(self).model(), number as nat, raw@) {
                Ok(m) => r is Ok && final(self).model() == m,
                Err(e) => r == Err::<(), AsmError>(e),
            },
    {
        let line = trimmed(raw);
        let hash = vec!['#'];
        let slashes = vec!['/', '/'];
        let node = vec!['N', 'O', 'D', 'E'];
        assert(hash@ =~= seq!['#']);
        assert(slashes@ =~= seq!['/', '/']);
        assert(node@ =~= seq!['N', 'O', 'D', 'E']);
        if line.len() == 0 || has_prefix(&line, &hash) || has_prefix(&line, &slashes) {
            return Ok(());
        }
        if has_prefix(&line, &node) {
            let parts = split_words(&line);
            if parts.len() >= 2 {
                match parse_node_coords(&parts[1]) {
                    Some((r, c)) => {
                        self.current = Some(2 * r + c);
                        assert(self.model().labels =~= old(self).model().labels);
                        assert(self.model().pending =~= old(self).model().pending);
                        return Ok(());
                    },
                    None => {
                        return Err(AsmError { line: number, kind: AsmErrorKind::BadCoordinate });
                    },
                }
            }
            return Ok(());
        }
        if line[line.len() - 1] == ':' {
            if let Some(n) = self.current {
                let colon = vec![':'];
                assert(colon@ =~= seq![':']);
                let name = strip_back(&line, &colon);
                let count = self.pending[n].len();
                let ghost name_v = name@;
                let mut l = self.labels.remove(n);
                let ghost before = l;
                l.push((name, count));
                assert(label_view(l) =~= label_view(before).push((name_v, count as nat)));
                self.labels.insert(n, l);
                let ghost om = old(self).model();
                assert(self.model().labels =~= om.labels.update(
                    n as int,
                    om.labels[n as int].push((name_v, om.pending[n as int].len())),
                ));
                assert(self.model().pending =~= om.pending);
            }
            return Ok(());
        }
        if let Some(n) = self.current {
            let ghost line_v = line@;
            let mut p = self.pending.remove(n);
            let ghost before = p;
            p.push((number, line));
            assert(pending_view(p) =~= pending_view(before).push((number as nat, line_v)));
            self.pending.insert(n, p);
            let ghost om = old(self).model();
            assert(self.model().pending =~= om.pending.update(
                n as int,
                om.pending[n as int].push((number as nat, line_v)),
            ));
            assert(self.model().labels =~= om.labels);
        }
        Ok(())
    }
}

/// A source operand, looked up first among the node's labels.
fn parse_src_operand(s: &[char], labels: &Vec<(Vec<char>, usize)>) -> (r: Result<Src, ParseError>)
    ensures
        r == resolve_src(s@, label_view(*labels)),
{
    let ghost lv = label_view(*labels);
    let mut j: usize = labels.len();
    assert(lv.take(j as int) =~= lv);
    while j > 0
        invariant
            j <= labels@.len(),
            lv == label_view(*labels),
            label_pc(lv, s@) == label_pc(lv.take(j as int), s@),
        decreases j,
    {
        assert(lv.take(j as int).drop_last() =~= lv.take(j - 1));
        if same_chars(&labels[j - 1].0, s) {
            return Ok(Src::Lit(#[verifier::truncate] (labels[j - 1].1 as u32)));
        }
        j = j - 1;
    }
    Src::from_chars(s)
}

fn takes_no_operand_exec(op: Op) -> (r: bool)
    ensures
        r == takes_no_operand(op),
{
    match op {
        Op::Nop | Op::Hlt | Op::Neg | Op::Sav | Op::Swp => true,
        _ => false,
    }
}

/// The instruction written by the tokens `parts`.
fn parse_instruction(parts: &Vec<Vec<char>>, labels: &Vec<(Vec<char>, usize)>) -> (r: Result<
    Inst,
    AsmErrorKind,
>)
    ensures
        r == inst_of(views(parts@), label_view(*labels)),
{
    if parts.len() == 0 {
        return Err(AsmErrorKind::EmptyInstruction);
    }
    let op = match Op::from_chars(&parts[0]) {
        Ok(op) => op,
        Err(e) => {
            return Err(AsmErrorKind::Parse(e));
        },
    };
    let needed: usize = if takes_no_operand_exec(op) {
        1
    } else if let Op::Mov = op {
        3
    } else {
        2
    };
    if parts.len() < needed {
        return Err(AsmErrorKind::MissingOperand);
    }
    if parts.len() > needed {
        return Err(AsmErrorKind::ExtraOperand);
    }
    if needed == 1 {
        return Ok(Inst { op, src: Src::Nil, dst: Dst::Nil });
    }
    if let Op::Mov = op {
        let comma = vec![','];
        assert(comma@ =~= seq![',']);
        let tok = strip_back(&parts[1], &comma);
        let src = match parse_src_operand(&tok, labels) {
            Ok(src) => src,
            Err(e) => {
                return Err(AsmErrorKind::Parse(e));
            },
        };
        match Dst::from_chars(&parts[2]) {
            Ok(dst) => Ok(Inst { op, src, dst }),
            Err(e) => Err(AsmErrorKind::Parse(e)),
        }
    } else {
        match parse_src_operand(&parts[1], labels) {
            Ok(src) => Ok(Inst { op, src, dst: Dst::Nil }),
            Err(e) => Err(AsmErrorKind::Parse(e)),
        }
    }
}

proof fn lemma_node_program_err(
    pending: Seq<(nat, Seq<char>)>,
    labels: Seq<(Seq<char>, nat)>,
    k: int,
    e: AsmError,
)
    requires
        0 <= k <= pending.len(),
        node_program(pending.take(k), labels) == Err::<Seq<Inst>, AsmError>(e),
    ensures
        node_program(pending, labels) == Err::<Seq<Inst>, AsmError>(e),
    decreases pending.len() - k,
{
    if k == pending.len() {
        assert(pending.take(k) =~= pending);
    } else {
        assert(pending.take(k + 1).drop_last() =~= pending.take(k));
        lemma_node_program_err(pending, labels, k + 1, e);
    }
}

proof fn lemma_scan_lines_err(lines: Seq<Seq<char>>, k: int, e: AsmError)
    requires
        0 <= k <= lines.len(),
        scan_lines(lines.take(k)) == Err::<Scan, AsmError>(e),
    ensures
        scan_lines(lines) == Err::<Scan, AsmError>(e),
    decreases lines.len() - k,
{
    if k == lines.len() {
        assert(lines.take(k) =~= lines);
    } else {
        assert(lines.take(k + 1).drop_last() =~= lines.take(k));
        lemma_scan_lines_err(lines, k + 1, e);
    }
}

/// The second pass on one node.
fn assemble_node(pending: &Vec<(usize, Vec<char>)>, labels: &Vec<(Vec<char>, usize)>) -> (r: Result<
    Vec<Inst>,
    AsmError,
>)
    ensures
        match r {
            Ok(p) => node_program(pending_view(*pending), label_view(*labels)) == Ok::<
                Seq<Inst>,
                AsmError,
            >(p@),
            Err(e) => node_program(pending_view(*pending), label_view(*labels)) == Err::<
                Seq<Inst>,
                AsmError,
            >(e),
        },
{
    let ghost pv = pending_view(*pending);
    let ghost lv = label_view(*labels);
    let mut prog: Vec<Inst> = Vec::new();
    let mut i: usize = 0;
    assert(pv.take(0) =~= Seq::<(nat, Seq<char>)>::empty());
    while i < pending.len()
        invariant
            i <= pending@.len(),
            pv == pending_view(*pending),
            lv == label_view(*labels),
            node_program(pv.take(i as int), lv) == Ok::<Seq<Inst>, AsmError>(prog@),
        decreases pending@.len() - i,
    {
        assert(pv.take(i + 1).drop_last() =~= pv.take(i as int));
        assert(pv.take(i + 1).last() == pv[i as int]);
        let parts = split_words(&pending[i].1);
        match parse_instruction(&parts, labels) {
            Ok(inst) => {
                prog.push(inst);
            },
            Err(k) => {
                let e = AsmError { line: pending[i].0, kind: k };
                proof {
                    lemma_node_program_err(pv, lv, i + 1, e);
                }
                return Err(e);
            },
        }
        i = i + 1;
    }
    assert(pv.take(i as int) =~= pv);
    Ok(prog)
}

/// Assembles source text into the programs of the 2x2 grid. Lines are
/// trimmed; blank lines and lines starting with `#` or `//` are skipped;
/// lines before the first `NODE` are dropped. Fails with the first error,
/// first-pass errors before second-pass ones.
pub fn parse_assembly(code: &str) -> (r: Result<Programs, AsmError>)
    ensures
        match r {
            Ok(p) => assembled(code@) == Ok::<Seq<Seq<Seq<Inst>>>, AsmError>(programs_view(p)),
            Err(e) => assembled(code@) == Err::<Seq<Seq<Seq<Inst>>>, AsmError>(e),
        },
{
    let text = chars_of(code);
    let lines = split_chars(&text, '\n');
    let ghost lv = views(lines@);
    let mut st = Scanner::new();
    let mut k: usize = 0;
    assert(lv.take(0) =~= Seq::<Seq<char>>::empty());
    while k < lines.len()
        invariant
            st.wf(),
            k <= lines@.len(),
            lv == views(lines@),
            lv == split_on(code@, '\n'),
            scan_lines(lv.take(k as int)) == Ok::<Scan, AsmError>(st.model()),
        decreases lines@.len() - k,
    {
        assert(lv.take(k + 1).drop_last() =~= lv.take(k as int));
        assert(lv.take(k + 1).last() == lines@[k as int]@);
        match st.scan(k + 1, &lines[k]) {
            Ok(()) => {},
            Err(e) => {
                proof {
                    lemma_scan_lines_err(lv, k + 1, e);
                }
                return Err(e);
            },
        }
        k = k + 1;
    }
    assert(lv.take(k as int) =~= lv);
    let ghost m = st.model();
    assert forall|n: int| 0 <= n < 4 implies m.pending[n] == pending_view(st.pending@[n])
        && m.labels[n] == label_view(st.labels@[n]) by {}
    let p0 = match assemble_node(&st.pending[0], &st.labels[0]) {
        Ok(p) => p,
        Err(e) => {
            return Err(e);
        },
    };
    assert(node_programs(m, 1) == Ok::<Seq<Seq<Inst>>, AsmError>(seq![p0@])) by {
        assert(node_programs(m, 0) == Ok::<Seq<Seq<Inst>>, AsmError>(Seq::empty()));
        assert(Seq::<Seq<Inst>>::empty().push(p0@) =~= seq![p0@]);
    }
    let p1 = match assemble_node(&st.pending[1], &st.labels[1]) {
        Ok(p) => p,
        Err(e) => {
            return Err(e);
        },
    };
    assert(node_programs(m, 2) == Ok::<Seq<Seq<Inst>>, AsmError>(seq![p0@, p1@])) by {
        assert(seq![p0@].push(p1@) =~= seq![p0@, p1@]);
    }
    let p2 = match assemble_node(&st.pending[2], &st.labels[2]) {
        Ok(p) => p,
        Err(e) => {
            return Err(e);
        },
    };
    assert(node_programs(m, 3) == Ok::<Seq<Seq<Inst>>, AsmError>(seq![p0@, p1@, p2@])) by {
        assert(seq![p0@, p1@].push(p2@) =~= seq![p0@, p1@, p2@]);
    }
    let p3 = match assemble_node(&st.pending[3], &st.labels[3]) {
        Ok(p) => p,
        Err(e) => {
            return Err(e);
        },
    };
    let ghost nodes = seq![p0@, p1@, p2@, p3@];
    assert(node_programs(m, 4) == Ok::<Seq<Seq<Inst>>, AsmError>(nodes)) by {
        assert(seq![p0@, p1@, p2@].push(p3@) =~= nodes);
    }
    let programs: Programs = vec![vec![p0, p1], vec![p2, p3]];
    assert(programs_view(programs) =~= grid_of(nodes)) by {
        assert(programs_view(programs)[0] =~= grid_of(nodes)[0]);
        assert(programs_view(programs)[1] =~= grid_of(nodes)[1]);
    }
    Ok(programs)
}

/// A grid cannot be encoded.
#[derive(Debug, Clone, Copy, PartialEq, Eq, Structural)]
pub enum EncodeError {
    /// A node holds more instructions than its 32-bit length word can count.
    ProgramTooLong,
}

/// A node's instruction words.
pub open spec fn node_words(p: Seq<Inst>) -> Seq<u32> {
    p.map_values(|i: Inst| i.spec_encode())
}

/// One node's part of the image: its length, then its instruction words.
pub open spec fn node_image(p: Seq<Inst>) -> Seq<u32> {
    seq![p.len() as u32] + node_words(p)
}

/// The images of `ns`, one after another.
pub open spec fn nodes_image(ns: Seq<Seq<Inst>>) -> Seq<u32>
    decreases ns.len(),
{
    if ns.len() == 0 {
        Seq::empty()
    } else {
        node_image(ns[0]) + nodes_image(ns.drop_first())
    }
}

/// The nodes of a grid in row-major order.
pub open spec fn flat_nodes(g: Seq<Seq<Seq<Inst>>>) -> Seq<Seq<Inst>>
    decreases g.len(),
{
    if g.len() == 0 {
        Seq::empty()
    } else {
        g[0] + flat_nodes(g.drop_first())
    }
}

/// The encoded program image of a grid.
pub open spec fn image(g: Seq<Seq<Seq<Inst>>>) -> Seq<u32> {
    nodes_image(flat_nodes(g))
}

/// Every node's length fits in its 32-bit length word.
pub open spec fn lengths_fit(g: Seq<Seq<Seq<Inst>>>) -> bool {
    forall|r: int, c: int|
        0 <= r < g.len() && 0 <= c < g[r].len() ==> (#[trigger] g[r][c]).len() <= u32::MAX
}

pub proof fn lemma_nodes_image_append(a: Seq<Seq<Inst>>, b: Seq<Seq<Inst>>)
    ensures
        nodes_image(a + b) == nodes_image(a) + nodes_image(b),
    decreases a.len(),
{
    if a.len() == 0 {
        assert(a + b =~= b);
        assert(nodes_image(a) + nodes_image(b) =~= nodes_image(b));
    } else {
        assert((a + b).drop_first() =~= a.drop_first() + b);
        lemma_nodes_image_append(a.drop_first(), b);
        assert(nodes_image(a + b) =~= nodes_image(a) + nodes_image(b));
    }
}

pub proof fn lemma_flat_nodes_push(g: Seq<Seq<Seq<Inst>>>, row: Seq<Seq<Inst>>)
    ensures
        flat_nodes(g.push(row)) == flat_nodes(g) + row,
    decreases g.len(),
{
    if g.len() == 0 {
        assert(g.push(row).drop_first() =~= Seq::<Seq<Seq<Inst>>>::empty());
        assert(flat_nodes(g.push(row).drop_first()) == Seq::<Seq<Inst>>::empty());
        assert(g.push(row)[0] == row);
        assert(flat_nodes(g.push(row)) =~= row);
        assert(flat_nodes(g) + row =~= row);
    } else {
        assert(g.push(row).drop_first() =~= g.drop_first().push(row));
        lemma_flat_nodes_push(g.drop_first(), row);
        assert(flat_nodes(g.push(row)) =~= flat_nodes(g) + row);
    }
}

proof fn lemma_nodes_image_single(p: Seq<Inst>)
    ensures
        nodes_image(seq![p]) == node_image(p),
{
    assert(seq![p].drop_first() =~= Seq::<Seq<Inst>>::empty());
    assert(nodes_image(seq![p].drop_first()) == Seq::<u32>::empty());
    assert(node_image(p) + Seq::<u32>::empty() =~= node_image(p));
}

/// Appends the image of one node to `words`.
fn encode_node(words: &mut Vec<u32>, prog: &Vec<Inst>)
    requires
        prog@.len() <= u32::MAX,
    ensures
        final(words)@ == old(words)@ + node_image(prog@),
{
    let ghost base = old(words)@;
    words.push(prog.len() as u32);
    let mut i: usize = 0;
    while i < prog.len()
        invariant
            i <= prog@.len() <= u32::MAX,
            words@ == base + seq![prog@.len() as u32] + node_words(prog@).take(i as int),
        decreases prog@.len() - i,
    {
        words.push(prog[i].encode());
        i = i + 1;
        assert(words@ =~= base + seq![prog@.len() as u32] + node_words(prog@).take(i as int));
    }
    assert(node_words(prog@).take(i as int) =~= node_words(prog@));
    assert(words@ =~= base + node_image(prog@));
}

/// Encodes the grid into its word stream: for each node in row-major
/// order, its instruction count and then its instruction words. Fails only
/// when a node has more instructions than a 32-bit word counts.
pub fn encode_programs(programs: &Programs) -> (r: Result<Vec<u32>, EncodeError>)
    ensures
        r is Ok <==> lengths_fit(programs_view(*programs)),
        r matches Ok(w) ==> w@ == image(programs_view(*programs)),
{
    let ghost g = programs_view(*programs);
    let mut words: Vec<u32> = Vec::new();
    let mut r: usize = 0;
    assert(g.take(0) =~= Seq::<Seq<Seq<Inst>>>::empty());
    while r < programs.len()
        invariant
            r <= programs@.len(),
            g == programs_view(*programs),
            words@ == nodes_image(flat_nodes(g.take(r as int))),
            forall|a: int, c: int|
                0 <= a < r && 0 <= c < g[a].len() ==> (#[trigger] g[a][c]).len() <= u32::MAX,
        decreases programs@.len() - r,
    {
        let row = &programs[r];
        let ghost gr = g[r as int];
        assert(gr == row@.map_values(|prog: Vec<Inst>| prog@));
        let ghost before = words@;
        let mut c: usize = 0;
        assert(gr.take(0) =~= Seq::<Seq<Inst>>::empty());
        assert(before + nodes_image(gr.take(0)) =~= before);
        while c < row.len()
            invariant
                c <= row@.len(),
                r < programs@.len(),
                g == programs_view(*programs),
                gr == g[r as int],
                gr == row@.map_values(|prog: Vec<Inst>| prog@),
                before == nodes_image(flat_nodes(g.take(r as int))),
                words@ == before + nodes_image(gr.take(c as int)),
                forall|a: int, c2: int|
                    0 <= a < r && 0 <= c2 < g[a].len() ==> (#[trigger] g[a][c2]).len()
                        <= u32::MAX,
                forall|c2: int| 0 <= c2 < c ==> (#[trigger] gr[c2]).len() <= u32::MAX,
            decreases row@.len() - c,
        {
            let prog = &row[c];
            if prog.len() > 0xffff_ffffusize {
                assert(g[r as int][c as int].len() > u32::MAX);
                return Err(EncodeError::ProgramTooLong);
            }
            encode_node(&mut words, prog);
            proof {
                assert(gr.take(c + 1) =~= gr.take(c as int) + seq![gr[c as int]]);
                lemma_nodes_image_append(gr.take(c as int), seq![gr[c as int]]);
                lemma_nodes_image_single(gr[c as int]);
            }
            c = c + 1;
        }
        proof {
            assert(gr.take(c as int) =~= gr);
            assert(g.take(r + 1) =~= g.take(r as int).push(gr));
            lemma_flat_nodes_push(g.take(r as int), gr);
            lemma_nodes_image_append(flat_nodes(g.take(r as int)), gr);
        }
        r = r + 1;
    }
    assert(g.take(r as int) =~= g);
    Ok(words)
}

proof fn lemma_scan_without_nodes(lines: Seq<Seq<char>>)
    requires
        forall|k: int| 0 <= k < lines.len() ==> !is_node_decl(#[trigger] trim(lines[k])),
    ensures
        scan_lines(lines) == Ok::<Scan, AsmError>(scan_start()),
    decreases lines.len(),
{
    if lines.len() > 0 {
        let d = lines.drop_last();
        assert forall|k: int| 0 <= k < d.len() implies !is_node_decl(#[trigger] trim(d[k])) by {
            assert(d[k] == lines[k]);
        }
        lemma_scan_without_nodes(d);
        assert(!is_node_decl(trim(lines[lines.len() - 1])));
    }
}

/// A grid of four empty programs.
pub open spec fn empty_grid() -> Seq<Seq<Seq<Inst>>> {
    grid_of(Seq::new(4, |i: int| Seq::<Inst>::empty()))
}

/// Empty grid: a text that declares no node, or whose first pass keeps no
/// instruction line for any node, assembles to four empty programs, and
/// those encode to exactly four zero words.
pub proof fn lemma_empty_grid(text: Seq<char>)
    requires
        (forall|k: int|
            0 <= k < split_on(text, '\n').len() ==> !is_node_decl(
                #[trigger] trim(split_on(text, '\n')[k]),
            )) || (scan_lines(split_on(text, '\n')) is Ok && forall|n: int|
            0 <= n < 4 ==> (#[trigger] scan_lines(split_on(text, '\n'))->Ok_0.pending[n]).len()
                == 0),
    ensures
        assembled(text) == Ok::<Seq<Seq<Seq<Inst>>>, AsmError>(empty_grid()),
        image(empty_grid()) == seq![0u32, 0, 0, 0],
{
    let lines = split_on(text, '\n');
    if forall|k: int| 0 <= k < lines.len() ==> !is_node_decl(#[trigger] trim(lines[k])) {
        lemma_scan_without_nodes(lines);
    }
    let st = scan_lines(lines)->Ok_0;
    assert(st.pending[0].len() == 0 && st.pending[1].len() == 0 && st.pending[2].len() == 0
        && st.pending[3].len() == 0);
    let e = Seq::<Inst>::empty();
    assert(node_programs(st, 0) == Ok::<Seq<Seq<Inst>>, AsmError>(Seq::empty()));
    assert(node_programs(st, 1) == Ok::<Seq<Seq<Inst>>, AsmError>(seq![e])) by {
        assert(Seq::<Seq<Inst>>::empty().push(e) =~= seq![e]);
    }
    assert(node_programs(st, 2) == Ok::<Seq<Seq<Inst>>, AsmError>(seq![e, e])) by {
        assert(seq![e].push(e) =~= seq![e, e]);
    }
    assert(node_programs(st, 3) == Ok::<Seq<Seq<Inst>>, AsmError>(seq![e, e, e])) by {
        assert(seq![e, e].push(e) =~= seq![e, e, e]);
    }
    assert(node_programs(st, 4) == Ok::<Seq<Seq<Inst>>, AsmError>(seq![e, e, e, e])) by {
        assert(seq![e, e, e].push(e) =~= seq![e, e, e, e]);
    }
    assert(seq![e, e, e, e] =~= Seq::new(4, |i: int| Seq::<Inst>::empty()));
    let g = empty_grid();
    let row = seq![e, e];
    assert(g =~= seq![row, row]);
    assert(flat_nodes(seq![row]) =~= row) by {
        assert(seq![row].drop_first() =~= Seq::<Seq<Seq<Inst>>>::empty());
        assert(flat_nodes(Seq::<Seq<Seq<Inst>>>::empty()) == Seq::<Seq<Inst>>::empty());
    }
    assert(flat_nodes(g) =~= seq![e, e, e, e]) by {
        assert(g.drop_first() =~= seq![row]);
    }
    assert(node_image(e) =~= seq![0u32]);
    let ns = seq![e, e, e, e];
    assert(nodes_image(ns.drop_first().drop_first().drop_first().drop_first()) == Seq::<u32>::empty());
    assert(nodes_image(ns.drop_first().drop_first().drop_first()) =~= seq![0u32]);
    assert(nodes_image(ns.drop_first().drop_first()) =~= seq![0u32, 0]);
    assert(nodes_image(ns.drop_first()) =~= seq![0u32, 0, 0]);
    assert(nodes_image(ns) =~= seq![0u32, 0, 0, 0]);
}

/// A label names the instruction count of its node at its declaration:
/// once the first pass has read `name:` in node `n`, `name` as a source
/// operand of node `n` resolves to that count as a literal (a label at the
/// top of a node to 0).
pub proof fn lemma_label_resolves(st: Scan, number: nat, raw: Seq<char>)
    requires
        st.current is Some,
        st.current->Some_0 < 4,
        st.labels.len() == 4,
        st.pending.len() == 4,
        is_label_decl(trim(raw)),
        !is_skipped(trim(raw)),
        !is_node_decl(trim(raw)),
    ensures
        scan_line(st, number, raw) is Ok,
        resolve_src(
            strip_end(trim(raw), seq![':']),
            scan_line(st, number, raw)->Ok_0.labels[st.current->Some_0 as int],
        ) == Ok::<Src, ParseError>(Src::Lit(st.pending[st.current->Some_0 as int].len() as u32)),
{
    let n = st.current->Some_0 as int;
    let name = strip_end(trim(raw), seq![':']);
    let after = scan_line(st, number, raw)->Ok_0;
    assert(after.labels[n] == st.labels[n].push((name, st.pending[n].len())));
    assert(label_pc(after.labels[n], name) == Some(st.pending[n].len()));
}

/// A node that assembles holds one instruction per kept line, each the
/// instruction that line's tokens write.
pub proof fn lemma_node_program_entries(
    pending: Seq<(nat, Seq<char>)>,
    labels: Seq<(Seq<char>, nat)>,
)
    requires
        node_program(pending, labels) is Ok,
    ensures
        node_program(pending, labels)->Ok_0.len() == pending.len(),
        forall|k: int|
            0 <= k < pending.len() ==> inst_of(words(#[trigger] pending[k].1), labels) == Ok::<
                Inst,
                AsmErrorKind,
            >(node_program(pending, labels)->Ok_0[k]),
    decreases pending.len(),
{
    if pending.len() > 0 {
        let d = pending.drop_last();
        lemma_node_program_entries(d, labels);
        assert forall|k: int| 0 <= k < pending.len() implies inst_of(
            words(#[trigger] pending[k].1),
            labels,
        ) == Ok::<Inst, AsmErrorKind>(node_program(pending, labels)->Ok_0[k]) by {
            if k < pending.len() - 1 {
                assert(pending[k] == d[k]);
            }
        }
    }
}

/// Labels in the second pass: in a node that assembles, an instruction
/// whose source token is the name of one of the node's labels has as its
/// source the literal of the count that label was bound to, whether the
/// label is declared before or after the instruction.
pub proof fn lemma_label_operand(
    pending: Seq<(nat, Seq<char>)>,
    labels: Seq<(Seq<char>, nat)>,
    k: int,
    name: Seq<char>,
    pc: nat,
)
    requires
        node_program(pending, labels) is Ok,
        0 <= k < pending.len(),
        label_pc(labels, name) == Some(pc),
        words(pending[k].1).len() >= 2,
        ({
            let parts = words(pending[k].1);
            match op_named(upper_of(parts[0])) {
                Ok(op) => if op == Op::Mov {
                    strip_end(parts[1], seq![',']) == name
                } else {
                    parts[1] == name
                },
                Err(_) => true,
            }
        }),
    ensures
        node_program(pending, labels)->Ok_0[k].src == Src::Lit(pc as u32),
{
    lemma_node_program_entries(pending, labels);
    assert(inst_of(words(pending[k].1), labels) is Ok);
}

/// Labels in the first pass: a line that does not redeclare `name` in the
/// current node leaves what `name` is bound to in node `n` as it was.
pub proof fn lemma_label_kept(st: Scan, number: nat, raw: Seq<char>, n: int, name: Seq<char>)
    requires
        0 <= n < 4,
        st.labels.len() == 4,
        st.pending.len() == 4,
        st.current is Some ==> st.current->Some_0 < 4,
        scan_line(st, number, raw) is Ok,
        !(is_label_decl(trim(raw)) && strip_end(trim(raw), seq![':']) == name && st.current
            == Some(n as nat)),
    ensures
        label_pc(scan_line(st, number, raw)->Ok_0.labels[n], name) == label_pc(st.labels[n], name),
{
    let line = trim(raw);
    let after = scan_line(st, number, raw)->Ok_0;
    if !is_skipped(line) && !is_node_decl(line) && is_label_decl(line) && st.current is Some {
        let m = st.current->Some_0 as int;
        if m == n {
            let l2 = after.labels[n];
            assert(l2.drop_last() == st.labels[n]);
            assert(l2.last().0 != name);
        } else {
            assert(after.labels[n] == st.labels[n]);
        }
    }
}

/// A first-pass state with four nodes and a current node among them.
pub open spec fn scan_wf(st: Scan) -> bool {
    &&& st.labels.len() == 4
    &&& st.pending.len() == 4
    &&& st.current is Some ==> st.current->Some_0 < 4
}

proof fn lemma_scan_lines_wf(lines: Seq<Seq<char>>)
    requires
        scan_lines(lines) is Ok,
    ensures
        scan_wf(scan_lines(lines)->Ok_0),
    decreases lines.len(),
{
    if lines.len() > 0 {
        lemma_scan_lines_wf(lines.drop_last());
    }
}

proof fn lemma_scan_prefix_ok(lines: Seq<Seq<char>>, j: int)
    requires
        0 <= j <= lines.len(),
        scan_lines(lines) is Ok,
    ensures
        scan_lines(lines.take(j)) is Ok,
{
    if scan_lines(lines.take(j)) is Err {
        lemma_scan_lines_err(lines, j, scan_lines(lines.take(j))->Err_0);
    }
}

/// A binding of `name` in node `n` made by line `j` or before lasts to the
/// end of the first pass when no later line declares `name`.
pub proof fn lemma_label_survives(lines: Seq<Seq<char>>, j: int, n: int, name: Seq<char>, pc: nat)
    requires
        0 <= j <= lines.len(),
        0 <= n < 4,
        scan_lines(lines) is Ok,
        label_pc(scan_lines(lines.take(j))->Ok_0.labels[n], name) == Some(pc),
        forall|i: int|
            j <= i < lines.len() ==> !(is_label_decl(#[trigger] trim(lines[i])) && strip_end(
                trim(lines[i]),
                seq![':'],
            ) == name),
    ensures
        label_pc(scan_lines(lines)->Ok_0.labels[n], name) == Some(pc),
    decreases lines.len() - j,
{
    if j < lines.len() {
        assert(lines.take(j + 1).drop_last() =~= lines.take(j));
        assert(lines.take(j + 1).last() == lines[j]);
        lemma_scan_prefix_ok(lines, j);
        lemma_scan_prefix_ok(lines, j + 1);
        lemma_scan_lines_wf(lines.take(j));
        assert(!(is_label_decl(trim(lines[j])) && strip_end(trim(lines[j]), seq![':']) == name));
        lemma_label_kept(scan_lines(lines.take(j))->Ok_0, (j + 1) as nat, lines[j], n, name);
        lemma_label_survives(lines, j + 1, n, name, pc);
    } else {
        assert(lines.take(j) =~= lines);
    }
}

/// The grid that a text assembles to holds, at (row, col), the second pass
/// of node `2 * row + col`.
pub proof fn lemma_assembled_nodes(text: Seq<char>, n: int)
    requires
        assembled(text) is Ok,
        0 <= n < 4,
    ensures
        scan_lines(split_on(text, '\n')) is Ok,
        ({
            let st = scan_lines(split_on(text, '\n'))->Ok_0;
            &&& node_program(st.pending[n], st.labels[n]) is Ok
            &&& assembled(text)->Ok_0[n / 2][n % 2] == node_program(
                st.pending[n],
                st.labels[n],
            )->Ok_0
        }),
{
    let st = scan_lines(split_on(text, '\n'))->Ok_0;
    assert(node_programs(st, 4) is Ok);
    assert(node_programs(st, 3) is Ok);
    assert(node_programs(st, 2) is Ok);
    assert(node_programs(st, 1) is Ok);
    assert(node_programs(st, 0) is Ok);
    let nodes = node_programs(st, 4)->Ok_0;
    assert(nodes[0] == node_program(st.pending[0], st.labels[0])->Ok_0);
    assert(nodes[1] == node_program(st.pending[1], st.labels[1])->Ok_0);
    assert(nodes[2] == node_program(st.pending[2], st.labels[2])->Ok_0);
    assert(nodes[3] == node_program(st.pending[3], st.labels[3])->Ok_0);
}

/// Label resolution over a whole text: when line `j` declares `name` in
/// node `n` after that node has kept `N` instruction lines, and no other
/// line declares `name`, every instruction of node `n` whose source token
/// is `name` has the literal `N` as its source, whether it comes before or
/// after the declaration.
pub proof fn lemma_label_in_assembly(text: Seq<char>, j: int, n: int, k: int, name: Seq<char>)
    requires
        assembled(text) is Ok,
        0 <= n < 4,
        0 <= j < split_on(text, '\n').len(),
        ({
            let lines = split_on(text, '\n');
            let line = trim(lines[j]);
            &&& scan_lines(lines.take(j)) is Ok
            &&& scan_lines(lines.take(j))->Ok_0.current == Some(n as nat)
            &&& is_label_decl(line) && !is_skipped(line) && !is_node_decl(line)
            &&& strip_end(line, seq![':']) == name
            &&& forall|i: int|
                0 <= i < lines.len() && i != j ==> !(is_label_decl(#[trigger] trim(lines[i]))
                    && strip_end(trim(lines[i]), seq![':']) == name)
        }),
        ({
            let st = scan_lines(split_on(text, '\n'))->Ok_0;
            &&& 0 <= k < st.pending[n].len()
            &&& words(st.pending[n][k].1).len() >= 2
            &&& match op_named(upper_of(words(st.pending[n][k].1)[0])) {
                Ok(op) => if op == Op::Mov {
                    strip_end(words(st.pending[n][k].1)[1], seq![',']) == name
                } else {
                    words(st.pending[n][k].1)[1] == name
                },
                Err(_) => true,
            }
        }),
    ensures
        assembled(text)->Ok_0[n / 2][n % 2][k].src == Src::Lit(
            scan_lines(split_on(text, '\n').take(j))->Ok_0.pending[n].len() as u32,
        ),
{
    let lines = split_on(text, '\n');
    lemma_assembled_nodes(text, n);
    let before = scan_lines(lines.take(j))->Ok_0;
    let count = before.pending[n].len();
    lemma_scan_lines_wf(lines.take(j));
    assert(lines.take(j + 1).drop_last() =~= lines.take(j));
    assert(lines.take(j + 1).last() == lines[j]);
    lemma_scan_prefix_ok(lines, j + 1);
    let after = scan_line(before, (j + 1) as nat, lines[j])->Ok_0;
    assert(after.labels[n] == before.labels[n].push((name, count)));
    assert(label_pc(after.labels[n], name) == Some(count));
    lemma_label_survives(lines, j + 1, n, name, count);
    let st = scan_lines(lines)->Ok_0;
    lemma_label_operand(st.pending[n], st.labels[n], k, name, count);
}

/// Assembly and encoding depend on the text alone: equal texts assemble to
/// the same result, and to the same word stream.
pub proof fn lemma_assembly_deterministic(t1: Seq<char>, t2: Seq<char>)
    requires
        t1 == t2,
    ensures
        assembled(t1) == assembled(t2),
        assembled(t1) is Ok ==> image(assembled(t1)->Ok_0) == image(assembled(t2)->Ok_0),
{
}

proof fn lemma_node_image_head(p: Seq<Inst>, rest: Seq<u32>)
    requires
        p.len() <= u32::MAX,
    ensures
        (node_image(p) + rest)[0] == p.len(),
        (node_image(p) + rest).subrange(1, 1 + p.len() as int) == node_words(p),
        (node_image(p) + rest).skip(1 + p.len() as int) == rest,
{
    assert((node_image(p) + rest).subrange(1, 1 + p.len() as int) =~= node_words(p));
    assert((node_image(p) + rest).skip(1 + p.len() as int) =~= rest);
}

/// The image determines each node's words: images that are equal, of node
/// lists whose lengths fit their words, come from equally many nodes with
/// equal words.
pub proof fn lemma_nodes_image_injective(a: Seq<Seq<Inst>>, b: Seq<Seq<Inst>>)
    requires
        nodes_image(a) == nodes_image(b),
        forall|i: int| 0 <= i < a.len() ==> (#[trigger] a[i]).len() <= u32::MAX,
        forall|i: int| 0 <= i < b.len() ==> (#[trigger] b[i]).len() <= u32::MAX,
    ensures
        a.len() == b.len(),
        forall|i: int| 0 <= i < a.len() ==> node_words(#[trigger] a[i]) == node_words(b[i]),
    decreases a.len(),
{
    if a.len() == 0 {
        if b.len() > 0 {
            assert(nodes_image(b).len() > 0);
        }
    } else if b.len() == 0 {
        assert(nodes_image(a).len() > 0);
    } else {
        let la = a[0].len();
        let lb = b[0].len();
        lemma_node_image_head(a[0], nodes_image(a.drop_first()));
        lemma_node_image_head(b[0], nodes_image(b.drop_first()));
        assert(la == lb);
        let da = a.drop_first();
        let db = b.drop_first();
        assert forall|i: int| 0 <= i < da.len() implies (#[trigger] da[i]).len() <= u32::MAX by {
            assert(da[i] == a[i + 1]);
        }
        assert forall|i: int| 0 <= i < db.len() implies (#[trigger] db[i]).len() <= u32::MAX by {
            assert(db[i] == b[i + 1]);
        }
        lemma_nodes_image_injective(da, db);
        assert forall|i: int| 0 <= i < a.len() implies node_words(#[trigger] a[i]) == node_words(
            b[i],
        ) by {
            if i > 0 {
                assert(a[i] == da[i - 1]);
                assert(b[i] == db[i - 1]);
            }
        }
    }
}

/// Every node in the row-major list of a grid is one of its nodes.
pub proof fn lemma_flat_nodes_fit(g: Seq<Seq<Seq<Inst>>>)
    requires
        lengths_fit(g),
    ensures
        forall|i: int| 0 <= i < flat_nodes(g).len() ==> (#[trigger] flat_nodes(g)[i]).len() <= u32::MAX,
    decreases g.len(),
{
    if g.len() > 0 {
        let d = g.drop_first();
        assert forall|r: int, c: int| 0 <= r < d.len() && 0 <= c < d[r].len() implies (
        #[trigger] d[r][c]).len() <= u32::MAX by {
            assert(d[r] == g[r + 1]);
        }
        lemma_flat_nodes_fit(d);
        assert forall|i: int| 0 <= i < flat_nodes(g).len() implies (
        #[trigger] flat_nodes(g)[i]).len() <= u32::MAX by {
            if i < g[0].len() {
                assert(flat_nodes(g)[i] == g[0][i]);
            } else {
                assert(flat_nodes(g)[i] == flat_nodes(d)[i - g[0].len()]);
            }
        }
    }
}

} // verus!
