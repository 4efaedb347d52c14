//! Configuration text format.
//!
//! A configuration document is a flat, self-delimiting text: every number is
//! written in decimal and terminated by `:`, every string is written as its
//! character count followed by its characters, and optional fields are
//! prefixed by `+` (present) or `_` (absent). The document holds the node
//! list, then the connection list; connection records name nodes by id and
//! are resolved to indices when the text is read back.
//!
//! The serializer and the parser are both specified against the spec
//! functions in this module, and the round trip is proved: parsing a
//! serialized graph with unique node ids yields the graph back.

use vstd::prelude::*;
use vstd::string::*;

use crate::config::{cfg_wf, CnxView, CuConfig, CuConfigView, EdgeView, NodeInstanceConfig, NodeView, Value, ValueView};
use crate::{CuError, CuResult};

verus! {

/// Spec-level image of the textual representation: the node list and the
/// connection list, before ids are resolved to indices.
pub struct RepView {
    pub tasks: Seq<NodeView>,
    pub cnx: Seq<CnxView>,
}

/// The digit character for `d` (0 ≤ d ≤ 9).
pub open spec fn dig_char(d: int) -> char {
    if d == 0 {
        '0'
    } else if d == 1 {
        '1'
    } else if d == 2 {
        '2'
    } else if d == 3 {
        '3'
    } else if d == 4 {
        '4'
    } else if d == 5 {
        '5'
    } else if d == 6 {
        '6'
    } else if d == 7 {
        '7'
    } else if d == 8 {
        '8'
    } else {
        '9'
    }
}

/// The value of a digit character, or -1 for any other character.
pub open spec fn dig_val(c: char) -> int {
    match c {
        '0' => 0,
        '1' => 1,
        '2' => 2,
        '3' => 3,
        '4' => 4,
        '5' => 5,
        '6' => 6,
        '7' => 7,
        '8' => 8,
        '9' => 9,
        _ => -1,
    }
}

/// Whether `c` is a decimal digit.
pub open spec fn is_digit(c: char) -> bool {
    dig_val(c) >= 0
}

/// Decimal digits of `n`, most significant first.
pub open spec fn ser_nat(n: nat) -> Seq<char>
    decreases n,
{
    if n < 10 {
        seq![dig_char(n as int)]
    } else {
        ser_nat(n / 10).push(dig_char((n % 10) as int))
    }
}

/// A number as written in the text: decimal digits terminated by `:`.
pub open spec fn ser_num(n: nat) -> Seq<char> {
    ser_nat(n).push(':')
}

/// A signed number: an optional `-` sign, then the magnitude.
pub open spec fn ser_int(v: int) -> Seq<char> {
    if v < 0 {
        seq!['-'] + ser_num((-v) as nat)
    } else {
        ser_num(v as nat)
    }
}

/// A string: its character count, then its characters verbatim.
pub open spec fn ser_str(s: Seq<char>) -> Seq<char> {
    ser_num(s.len()) + s
}

/// An optional string: `_` when absent, `+` then the string when present.
pub open spec fn ser_opt_str(o: Option<Seq<char>>) -> Seq<char> {
    match o {
        None => seq!['_'],
        Some(s) => seq!['+'] + ser_str(s),
    }
}

/// An optional signed number.
pub open spec fn ser_opt_int(o: Option<i64>) -> Seq<char> {
    match o {
        None => seq!['_'],
        Some(v) => seq!['+'] + ser_int(v as int),
    }
}

/// A tagged value: `i` integer, `f` float bit pattern, `s` string.
pub open spec fn ser_value(v: ValueView) -> Seq<char> {
    match v {
        ValueView::Integer(i) => seq!['i'] + ser_int(i as int),
        ValueView::FloatBits(b) => seq!['f'] + ser_num(b as nat),
        ValueView::Text(s) => seq!['s'] + ser_str(s),
    }
}

/// The configuration entries from position `i` on: key, then value, each.
pub open spec fn ser_entries(es: Seq<(Seq<char>, ValueView)>, i: int) -> Seq<char>
    decreases es.len() - i,
{
    if i < 0 || i >= es.len() {
        Seq::empty()
    } else {
        ser_str(es[i].0) + ser_value(es[i].1) + ser_entries(es, i + 1)
    }
}

/// An optional instance configuration: its entry count, then its entries.
pub open spec fn ser_opt_cfg(o: Option<Seq<(Seq<char>, ValueView)>>) -> Seq<char> {
    match o {
        None => seq!['_'],
        Some(es) => seq!['+'] + ser_num(es.len()) + ser_entries(es, 0),
    }
}

/// A node record: `t`, id, optional type, optional base period, optional
/// configuration, newline.
pub open spec fn ser_node(n: NodeView) -> Seq<char> {
    seq!['t'] + ser_str(n.id) + ser_opt_str(n.task_type) + ser_opt_int(n.base_period_ns)
        + ser_opt_cfg(n.config) + seq!['\n']
}

/// The node records from position `i` on.
pub open spec fn ser_nodes(ns: Seq<NodeView>, i: int) -> Seq<char>
    decreases ns.len() - i,
{
    if i < 0 || i >= ns.len() {
        Seq::empty()
    } else {
        ser_node(ns[i]) + ser_nodes(ns, i + 1)
    }
}

/// A connection record: `c`, source id, destination id, message type,
/// newline.
pub open spec fn ser_cnx(c: CnxView) -> Seq<char> {
    seq!['c'] + ser_str(c.src) + ser_str(c.dst) + ser_str(c.msg) + seq!['\n']
}

/// The connection records from position `i` on.
pub open spec fn ser_cnxs(cs: Seq<CnxView>, i: int) -> Seq<char>
    decreases cs.len() - i,
{
    if i < 0 || i >= cs.len() {
        Seq::empty()
    } else {
        ser_cnx(cs[i]) + ser_cnxs(cs, i + 1)
    }
}

/// A whole document: node count, nodes, connection count, connections.
pub open spec fn ser_rep(rep: RepView) -> Seq<char> {
    ser_num(rep.tasks.len()) + ser_nodes(rep.tasks, 0) + ser_num(rep.cnx.len()) + ser_cnxs(
        rep.cnx,
        0,
    )
}

/// The textual representation of a graph: nodes as they stand, each edge
/// named by the ids of its endpoints.
pub open spec fn rep_of(c: CuConfigView) -> RepView {
    RepView {
        tasks: c.nodes,
        cnx: Seq::new(
            c.edges.len(),
            |k: int|
                CnxView {
                    src: c.nodes[c.edges[k].src].id,
                    dst: c.nodes[c.edges[k].dst].id,
                    msg: c.edges[k].msg,
                },
        ),
    }
}

/// What `serialize_ron` produces for a graph.
pub open spec fn ser_config(c: CuConfigView) -> Seq<char> {
    ser_rep(rep_of(c))
}

/// The first position at or after `pos` holding no digit (or the end).
pub open spec fn digits_end(s: Seq<char>, pos: int) -> int
    decreases s.len() - pos,
{
    if pos < 0 || pos >= s.len() {
        pos
    } else if !is_digit(s[pos]) {
        pos
    } else {
        digits_end(s, pos + 1)
    }
}

/// The value of the digits `s[pos..end]`.
pub open spec fn digits_val(s: Seq<char>, pos: int, end: int) -> int
    decreases end - pos,
{
    if end <= pos {
        0
    } else {
        digits_val(s, pos, end - 1) * 10 + dig_val(s[end - 1])
    }
}

/// The largest number the text may carry.
pub open spec fn max_num() -> int {
    0xffff_ffff_ffff_ffff
}

/// Parses a number at `pos`: one or more digits, no leading zero, value at
/// most [`max_num`], terminated by `:`. Yields the value and the position
/// after the terminator.
pub open spec fn parse_num(s: Seq<char>, pos: int) -> Option<(int, int)> {
    let e = digits_end(s, pos);
    if pos < 0 || pos >= s.len() {
        None
    } else if e == pos {
        None
    } else if s[pos] == '0' && e > pos + 1 {
        None
    } else if digits_val(s, pos, e) > max_num() {
        None
    } else if e >= s.len() || s[e] != ':' {
        None
    } else {
        Some((digits_val(s, pos, e), e + 1))
    }
}

/// Parses a string at `pos`: a number, then that many characters.
pub open spec fn parse_str(s: Seq<char>, pos: int) -> Option<(Seq<char>, int)> {
    match parse_num(s, pos) {
        None => None,
        Some((l, p)) => if p + l > s.len() {
            None
        } else {
            Some((s.subrange(p, p + l), p + l))
        },
    }
}

/// Parses a signed number at `pos`; the magnitude of a negative number is
/// nonzero, and the value fits an `i64`.
pub open spec fn parse_int(s: Seq<char>, pos: int) -> Option<(i64, int)> {
    if 0 <= pos < s.len() && s[pos] == '-' {
        match parse_num(s, pos + 1) {
            None => None,
            Some((v, p)) => if v == 0 || v > 0x8000_0000_0000_0000 {
                None
            } else {
                Some(((-v) as i64, p))
            },
        }
    } else {
        match parse_num(s, pos) {
            None => None,
            Some((v, p)) => if v > 0x7fff_ffff_ffff_ffff {
                None
            } else {
                Some((v as i64, p))
            },
        }
    }
}

/// Parses an optional string: `_` or `+` followed by a string.
pub open spec fn parse_opt_str(s: Seq<char>, pos: int) -> Option<(Option<Seq<char>>, int)> {
    if 0 <= pos < s.len() && s[pos] == '_' {
        Some((None, pos + 1))
    } else if 0 <= pos < s.len() && s[pos] == '+' {
        match parse_str(s, pos + 1) {
            None => None,
            Some((t, p)) => Some((Some(t), p)),
        }
    } else {
        None
    }
}

/// Parses an optional signed number: `_` or `+` followed by a number.
pub open spec fn parse_opt_int(s: Seq<char>, pos: int) -> Option<(Option<i64>, int)> {
    if 0 <= pos < s.len() && s[pos] == '_' {
        Some((None, pos + 1))
    } else if 0 <= pos < s.len() && s[pos] == '+' {
        match parse_int(s, pos + 1) {
            None => None,
            Some((v, p)) => Some((Some(v), p)),
        }
    } else {
        None
    }
}

/// Parses a tagged value: `i`, `f` or `s` followed by its payload.
pub open spec fn parse_value(s: Seq<char>, pos: int) -> Option<(ValueView, int)> {
    if 0 <= pos < s.len() && s[pos] == 'i' {
        match parse_int(s, pos + 1) {
            None => None,
            Some((v, p)) => Some((ValueView::Integer(v), p)),
        }
    } else if 0 <= pos < s.len() && s[pos] == 'f' {
        match parse_num(s, pos + 1) {
            None => None,
            Some((v, p)) => Some((ValueView::FloatBits(v as u64), p)),
        }
    } else if 0 <= pos < s.len() && s[pos] == 's' {
        match parse_str(s, pos + 1) {
            None => None,
            Some((t, p)) => Some((ValueView::Text(t), p)),
        }
    } else {
        None
    }
}

/// Parses `n` configuration entries, each a key then a value.
pub open spec fn parse_entries(s: Seq<char>, pos: int, n: int) -> Option<
    (Seq<(Seq<char>, ValueView)>, int),
>
    decreases n,
{
    if n <= 0 {
        Some((Seq::empty(), pos))
    } else {
        match parse_str(s, pos) {
            None => None,
            Some((k, p1)) => match parse_value(s, p1) {
                None => None,
                Some((v, p2)) => match parse_entries(s, p2, n - 1) {
                    None => None,
                    Some((rest, p3)) => Some((seq![(k, v)] + rest, p3)),
                },
            },
        }
    }
}

/// Parses an optional instance configuration; duplicate keys are rejected.
pub open spec fn parse_opt_cfg(s: Seq<char>, pos: int) -> Option<
    (Option<Seq<(Seq<char>, ValueView)>>, int),
> {
    if 0 <= pos < s.len() && s[pos] == '_' {
        Some((None, pos + 1))
    } else if 0 <= pos < s.len() && s[pos] == '+' {
        match parse_num(s, pos + 1) {
            None => None,
            Some((n, p1)) => match parse_entries(s, p1, n) {
                None => None,
                Some((es, p2)) => if cfg_wf(es) {
                    Some((Some(es), p2))
                } else {
                    None
                },
            },
        }
    } else {
        None
    }
}

/// Parses one node record.
pub open spec fn parse_node(s: Seq<char>, pos: int) -> Option<(NodeView, int)> {
    if 0 <= pos < s.len() && s[pos] == 't' {
        match parse_str(s, pos + 1) {
            None => None,
            Some((id, p1)) => match parse_opt_str(s, p1) {
                None => None,
                Some((ty, p2)) => match parse_opt_int(s, p2) {
                    None => None,
                    Some((bp, p3)) => match parse_opt_cfg(s, p3) {
                        None => None,
                        Some((cfg, p4)) => if p4 < s.len() && s[p4] == '\n' {
                            Some(
                                (
                                    NodeView {
                                        id: id,
                                        task_type: ty,
                                        base_period_ns: bp,
                                        config: cfg,
                                    },
                                    p4 + 1,
                                ),
                            )
                        } else {
                            None
                        },
                    },
                },
            },
        }
    } else {
        None
    }
}

/// Parses `n` node records.
pub open spec fn parse_nodes(s: Seq<char>, pos: int, n: int) -> Option<(Seq<NodeView>, int)>
    decreases n,
{
    if n <= 0 {
        Some((Seq::empty(), pos))
    } else {
        match parse_node(s, pos) {
            None => None,
            Some((nv, p1)) => match parse_nodes(s, p1, n - 1) {
                None => None,
                Some((rest, p2)) => Some((seq![nv] + rest, p2)),
            },
        }
    }
}

/// Parses one connection record.
pub open spec fn parse_cnx(s: Seq<char>, pos: int) -> Option<(CnxView, int)> {
    if 0 <= pos < s.len() && s[pos] == 'c' {
        match parse_str(s, pos + 1) {
            None => None,
            Some((src, p1)) => match parse_str(s, p1) {
                None => None,
                Some((dst, p2)) => match parse_str(s, p2) {
                    None => None,
                    Some((msg, p3)) => if p3 < s.len() && s[p3] == '\n' {
                        Some((CnxView { src: src, dst: dst, msg: msg }, p3 + 1))
                    } else {
                        None
                    },
                },
            },
        }
    } else {
        None
    }
}

/// Parses `n` connection records.
pub open spec fn parse_cnxs(s: Seq<char>, pos: int, n: int) -> Option<(Seq<CnxView>, int)>
    decreases n,
{
    if n <= 0 {
        Some((Seq::empty(), pos))
    } else {
        match parse_cnx(s, pos) {
            None => None,
            Some((cv, p1)) => match parse_cnxs(s, p1, n - 1) {
                None => None,
                Some((rest, p2)) => Some((seq![cv] + rest, p2)),
            },
        }
    }
}

/// The largest node count a document may declare; it keeps every node index
/// representable as a [`crate::config::NodeId`].
pub open spec fn max_nodes() -> int {
    0xffff_ffff
}

/// Parses a whole document; the text must be consumed exactly, and the node
/// count must not exceed [`max_nodes`].
pub open spec fn parse_rep(s: Seq<char>) -> Option<RepView> {
    match parse_num(s, 0) {
        None => None,
        Some((n, p1)) => if n > max_nodes() {
            None
        } else {
            match parse_nodes(s, p1, n) {
                None => None,
                Some((tasks, p2)) => match parse_num(s, p2) {
                    None => None,
                    Some((m, p3)) => match parse_cnxs(s, p3, m) {
                        None => None,
                        Some((cnx, p4)) => if p4 == s.len() {
                            Some(RepView { tasks: tasks, cnx: cnx })
                        } else {
                            None
                        },
                    },
                },
            }
        },
    }
}

/// The first node at or after position `i` whose id is `id`.
pub open spec fn find_node_from(ns: Seq<NodeView>, id: Seq<char>, i: int) -> Option<int>
    decreases ns.len() - i,
{
    if i < 0 || i >= ns.len() {
        None
    } else if ns[i].id == id {
        Some(i)
    } else {
        find_node_from(ns, id, i + 1)
    }
}

/// Resolves the connection records from position `k` on into edges, or
/// reports the first id that names no declared node.
pub open spec fn resolve_cnxs(tasks: Seq<NodeView>, cnx: Seq<CnxView>, k: int) -> Result<
    Seq<EdgeView>,
    Seq<char>,
>
    decreases cnx.len() - k,
{
    if k < 0 || k >= cnx.len() {
        Ok(Seq::empty())
    } else {
        match find_node_from(tasks, cnx[k].src, 0) {
            None => Err(cnx[k].src),
            Some(si) => match find_node_from(tasks, cnx[k].dst, 0) {
                None => Err(cnx[k].dst),
                Some(di) => match resolve_cnxs(tasks, cnx, k + 1) {
                    Err(id) => Err(id),
                    Ok(rest) => Ok(
                        seq![EdgeView { src: si, dst: di, msg: cnx[k].msg }] + rest,
                    ),
                },
            },
        }
    }
}

/// Resolves a textual representation into a graph, or reports the first
/// unresolved node id.
pub open spec fn resolve_rep(rep: RepView) -> Result<CuConfigView, Seq<char>> {
    match resolve_cnxs(rep.tasks, rep.cnx, 0) {
        Err(id) => Err(id),
        Ok(edges) => Ok(CuConfigView { nodes: rep.tasks, edges: edges }),
    }
}

/// The string fits the text format's number range.
pub open spec fn str_ok(s: Seq<char>) -> bool {
    s.len() <= max_num()
}

/// The value fits the text format.
pub open spec fn value_ok(v: ValueView) -> bool {
    match v {
        ValueView::Text(s) => str_ok(s),
        _ => true,
    }
}

/// Every string and count in the node fits the text format.
pub open spec fn node_ok(n: NodeView) -> bool {
    &&& str_ok(n.id)
    &&& match n.task_type {
        Some(t) => str_ok(t),
        None => true,
    }
    &&& match n.config {
        Some(es) => es.len() <= max_num() && forall|j: int|
            0 <= j < es.len() ==> str_ok((#[trigger] es[j]).0) && value_ok(es[j].1),
        None => true,
    }
}

/// Every string and count in the graph fits the text format. These bounds
/// hold of any graph held in memory; they only matter to statements about
/// unboundedly large spec-level values.
pub open spec fn config_ok(c: CuConfigView) -> bool {
    &&& c.nodes.len() <= max_nodes()
    &&& c.edges.len() <= max_num()
    &&& forall|i: int| 0 <= i < c.nodes.len() ==> node_ok(#[trigger] c.nodes[i])
    &&& forall|k: int| 0 <= k < c.edges.len() ==> str_ok((#[trigger] c.edges[k]).msg)
}

/// The digit character of `d` carries the value `d`.
proof fn lemma_dig(d: int)
    requires
        0 <= d <= 9,
    ensures
        dig_val(dig_char(d)) == d,
        is_digit(dig_char(d)),
{
}

/// Shape of a serialized number: nonempty, all digits, and a leading zero
/// only for zero itself.
proof fn lemma_ser_nat_shape(n: nat)
    ensures
        ser_nat(n).len() >= 1,
        forall|i: int| 0 <= i < ser_nat(n).len() ==> is_digit(#[trigger] ser_nat(n)[i]),
        ser_nat(n)[0] == '0' ==> n == 0,
        n == 0 ==> ser_nat(n) == seq![dig_char(0)],
    decreases n,
{
    if n < 10 {
        lemma_dig(n as int);
        if n != 0 {
            assert(dig_val(ser_nat(n)[0]) == n);
            assert(dig_val('0') == 0);
        }
    } else {
        lemma_ser_nat_shape(n / 10);
        lemma_dig((n % 10) as int);
        assert forall|i: int| 0 <= i < ser_nat(n).len() implies is_digit(
            #[trigger] ser_nat(n)[i],
        ) by {
            if i < ser_nat(n / 10).len() {
                assert(ser_nat(n)[i] == ser_nat(n / 10)[i]);
            } else {
                assert(ser_nat(n)[i] == dig_char((n % 10) as int));
            }
        }
        assert(ser_nat(n)[0] == ser_nat(n / 10)[0]);
    }
}

/// `digits_end` stops exactly at the end of a digit run.
proof fn lemma_digits_end_at(s: Seq<char>, pos: int, e: int)
    requires
        0 <= pos <= e <= s.len(),
        forall|i: int| pos <= i < e ==> is_digit(#[trigger] s[i]),
        e == s.len() || !is_digit(s[e]),
    ensures
        digits_end(s, pos) == e,
    decreases e - pos,
{
    if pos < e {
        lemma_digits_end_at(s, pos + 1, e);
    }
}

/// The digits of `ser_nat(n)` evaluate back to `n`.
proof fn lemma_digits_val_of_ser_nat(s: Seq<char>, pos: int, n: nat)
    requires
        0 <= pos,
        pos + ser_nat(n).len() <= s.len(),
        s.subrange(pos, pos + ser_nat(n).len()) == ser_nat(n),
    ensures
        digits_val(s, pos, pos + ser_nat(n).len()) == n,
    decreases n,
{
    let l = ser_nat(n).len() as int;
    if n < 10 {
        lemma_dig(n as int);
        assert(s.subrange(pos, pos + 1)[0] == ser_nat(n)[0]);
        assert(s[pos] == dig_char(n as int));
        assert(digits_val(s, pos, pos) == 0);
        assert(digits_val(s, pos, pos + 1) == dig_val(s[pos]));
    } else {
        let lp = ser_nat(n / 10).len() as int;
        assert(ser_nat(n) == ser_nat(n / 10).push(dig_char((n % 10) as int)));
        assert(s.subrange(pos, pos + lp) =~= ser_nat(n / 10)) by {
            assert forall|i: int| 0 <= i < lp implies #[trigger] s.subrange(pos, pos + lp)[i]
                == ser_nat(n / 10)[i] by {
                assert(s.subrange(pos, pos + lp)[i] == s.subrange(pos, pos + l)[i]);
            }
        }
        lemma_digits_val_of_ser_nat(s, pos, n / 10);
        lemma_dig((n % 10) as int);
        assert(s[pos + l - 1] == s.subrange(pos, pos + l)[l - 1]);
        assert(s[pos + l - 1] == dig_char((n % 10) as int));
        assert(digits_val(s, pos, pos + l) == digits_val(s, pos, pos + l - 1) * 10 + dig_val(
            s[pos + l - 1],
        ));
        assert(n / 10 * 10 + n % 10 == n) by {
            vstd::arithmetic::div_mod::lemma_fundamental_div_mod(n as int, 10);
        }
    }
}

/// A piece equal to `a + b` splits into its two halves.
proof fn lemma_split(s: Seq<char>, pos: int, a: Seq<char>, b: Seq<char>)
    requires
        0 <= pos,
        pos + a.len() + b.len() <= s.len(),
        s.subrange(pos, pos + a.len() + b.len()) == a + b,
    ensures
        s.subrange(pos, pos + a.len()) == a,
        s.subrange(pos + a.len(), pos + a.len() + b.len()) == b,
{
    let w = s.subrange(pos, pos + a.len() + b.len());
    assert forall|i: int| 0 <= i < a.len() implies s.subrange(pos, pos + a.len() as int)[i] == a[i] by {
        assert(w[i] == (a + b)[i]);
    }
    assert(s.subrange(pos, pos + a.len()) =~= a);
    assert forall|i: int| 0 <= i < b.len() implies s.subrange(
        pos + a.len(),
        pos + a.len() + b.len(),
    )[i] == b[i] by {
        assert(w[a.len() + i] == (a + b)[a.len() + i]);
    }
    assert(s.subrange(pos + a.len(), pos + a.len() + b.len()) =~= b);
}

/// Parsing a serialized number at its position yields the number and stops
/// right after its terminator.
proof fn lemma_parse_ser_num(s: Seq<char>, pos: int, n: nat)
    requires
        n <= max_num(),
        0 <= pos,
        pos + ser_num(n).len() <= s.len(),
        s.subrange(pos, pos + ser_num(n).len()) == ser_num(n),
    ensures
        parse_num(s, pos) == Some((n as int, pos + ser_num(n).len())),
{
    let l = ser_nat(n).len() as int;
    lemma_ser_nat_shape(n);
    assert(s.subrange(pos, pos + l) =~= ser_nat(n)) by {
        assert forall|i: int| 0 <= i < l implies #[trigger] s.subrange(pos, pos + l)[i] == ser_nat(
            n,
        )[i] by {
            assert(s.subrange(pos, pos + l + 1)[i] == ser_num(n)[i]);
            assert(ser_num(n)[i] == ser_nat(n)[i]);
        }
    }
    assert forall|i: int| pos <= i < pos + l implies is_digit(#[trigger] s[i]) by {
        assert(s.subrange(pos, pos + l)[i - pos] == ser_nat(n)[i - pos]);
    }
    assert(s[pos + l] == ':') by {
        assert(s.subrange(pos, pos + l + 1)[l] == ser_num(n)[l]);
    }
    assert(!is_digit(':'));
    lemma_digits_end_at(s, pos, pos + l);
    lemma_digits_val_of_ser_nat(s, pos, n);
    if s[pos] == '0' {
        assert(ser_nat(n)[0] == '0');
    }
}

/// Parsing a serialized string yields the string back.
proof fn lemma_parse_ser_str(s: Seq<char>, pos: int, t: Seq<char>)
    requires
        str_ok(t),
        0 <= pos,
        pos + ser_str(t).len() <= s.len(),
        s.subrange(pos, pos + ser_str(t).len()) == ser_str(t),
    ensures
        parse_str(s, pos) == Some((t, pos + ser_str(t).len())),
{
    lemma_split(s, pos, ser_num(t.len()), t);
    lemma_parse_ser_num(s, pos, t.len());
    let p = pos + ser_num(t.len()).len();
    assert(s.subrange(p, p + t.len()) == t);
}

/// Parsing a serialized marker-prefixed piece: peels one leading character.
proof fn lemma_peel_char(s: Seq<char>, pos: int, c: char, rest: Seq<char>)
    requires
        0 <= pos,
        pos + 1 + rest.len() <= s.len(),
        s.subrange(pos, pos + 1 + rest.len()) == seq![c] + rest,
    ensures
        s[pos] == c,
        s.subrange(pos + 1, pos + 1 + rest.len()) == rest,
{
    lemma_split(s, pos, seq![c], rest);
    assert(s.subrange(pos, pos + 1)[0] == seq![c][0]);
}

/// Parsing a serialized signed number yields the number back.
proof fn lemma_parse_ser_int(s: Seq<char>, pos: int, v: i64)
    requires
        0 <= pos,
        pos + ser_int(v as int).len() <= s.len(),
        s.subrange(pos, pos + ser_int(v as int).len()) == ser_int(v as int),
    ensures
        parse_int(s, pos) == Some((v, pos + ser_int(v as int).len())),
{
    if v < 0 {
        let m = (-(v as int)) as nat;
        lemma_split(s, pos, seq!['-'], ser_num(m));
        assert(s[pos] == '-') by {
            assert(s.subrange(pos, pos + 1)[0] == '-');
        }
        lemma_parse_ser_num(s, pos + 1, m);
    } else {
        let m = v as nat;
        lemma_parse_ser_num(s, pos, m);
        lemma_ser_nat_shape(m);
        assert(s[pos] == ser_num(m)[0]) by {
            assert(s.subrange(pos, pos + ser_num(m).len())[0] == ser_num(m)[0]);
        }
        assert(is_digit(s[pos]));
        assert(s[pos] != '-');
    }
}

/// Parsing a serialized optional string yields it back.
proof fn lemma_parse_ser_opt_str(s: Seq<char>, pos: int, o: Option<Seq<char>>)
    requires
        match o {
            Some(t) => str_ok(t),
            None => true,
        },
        0 <= pos,
        pos + ser_opt_str(o).len() <= s.len(),
        s.subrange(pos, pos + ser_opt_str(o).len()) == ser_opt_str(o),
    ensures
        parse_opt_str(s, pos) == Some((o, pos + ser_opt_str(o).len())),
{
    match o {
        None => {
            assert(s.subrange(pos, pos + 1)[0] == '_');
        },
        Some(t) => {
            lemma_peel_char(s, pos, '+', ser_str(t));
            lemma_parse_ser_str(s, pos + 1, t);
        },
    }
}

/// Parsing a serialized optional signed number yields it back.
proof fn lemma_parse_ser_opt_int(s: Seq<char>, pos: int, o: Option<i64>)
    requires
        0 <= pos,
        pos + ser_opt_int(o).len() <= s.len(),
        s.subrange(pos, pos + ser_opt_int(o).len()) == ser_opt_int(o),
    ensures
        parse_opt_int(s, pos) == Some((o, pos + ser_opt_int(o).len())),
{
    match o {
        None => {
            assert(s.subrange(pos, pos + 1)[0] == '_');
        },
        Some(v) => {
            lemma_peel_char(s, pos, '+', ser_int(v as int));
            lemma_parse_ser_int(s, pos + 1, v);
        },
    }
}

/// Parsing a serialized tagged value yields it back.
proof fn lemma_parse_ser_value(s: Seq<char>, pos: int, v: ValueView)
    requires
        value_ok(v),
        0 <= pos,
        pos + ser_value(v).len() <= s.len(),
        s.subrange(pos, pos + ser_value(v).len()) == ser_value(v),
    ensures
        parse_value(s, pos) == Some((v, pos + ser_value(v).len())),
{
    match v {
        ValueView::Integer(i) => {
            lemma_peel_char(s, pos, 'i', ser_int(i as int));
            lemma_parse_ser_int(s, pos + 1, i);
        },
        ValueView::FloatBits(b) => {
            lemma_peel_char(s, pos, 'f', ser_num(b as nat));
            lemma_parse_ser_num(s, pos + 1, b as nat);
        },
        ValueView::Text(t) => {
            lemma_peel_char(s, pos, 's', ser_str(t));
            lemma_parse_ser_str(s, pos + 1, t);
        },
    }
}

/// Parsing the serialized entries from position `i` on yields them back.
proof fn lemma_parse_ser_entries(s: Seq<char>, pos: int, es: Seq<(Seq<char>, ValueView)>, i: int)
    requires
        forall|j: int| 0 <= j < es.len() ==> str_ok((#[trigger] es[j]).0) && value_ok(es[j].1),
        0 <= i <= es.len(),
        0 <= pos,
        pos + ser_entries(es, i).len() <= s.len(),
        s.subrange(pos, pos + ser_entries(es, i).len()) == ser_entries(es, i),
    ensures
        parse_entries(s, pos, es.len() - i) == Some((es.skip(i), pos + ser_entries(es, i).len())),
    decreases es.len() - i,
{
    if i == es.len() {
        assert(es.skip(i) =~= Seq::empty());
    } else {
        let a = ser_str(es[i].0);
        let b = ser_value(es[i].1);
        let c = ser_entries(es, i + 1);
        assert(ser_entries(es, i) =~= a + (b + c));
        lemma_split(s, pos, a, b + c);
        lemma_parse_ser_str(s, pos, es[i].0);
        lemma_split(s, pos + a.len(), b, c);
        lemma_parse_ser_value(s, pos + a.len(), es[i].1);
        lemma_parse_ser_entries(s, pos + a.len() + b.len(), es, i + 1);
        assert(seq![(es[i].0, es[i].1)] + es.skip(i + 1) =~= es.skip(i));
    }
}

/// Parsing a serialized optional configuration yields it back.
proof fn lemma_parse_ser_opt_cfg(s: Seq<char>, pos: int, o: Option<Seq<(Seq<char>, ValueView)>>)
    requires
        match o {
            Some(es) => es.len() <= max_num() && cfg_wf(es) && forall|j: int|
                0 <= j < es.len() ==> str_ok((#[trigger] es[j]).0) && value_ok(es[j].1),
            None => true,
        },
        0 <= pos,
        pos + ser_opt_cfg(o).len() <= s.len(),
        s.subrange(pos, pos + ser_opt_cfg(o).len()) == ser_opt_cfg(o),
    ensures
        parse_opt_cfg(s, pos) == Some((o, pos + ser_opt_cfg(o).len())),
{
    match o {
        None => {
            assert(s.subrange(pos, pos + 1)[0] == '_');
        },
        Some(es) => {
            let a = ser_num(es.len());
            let b = ser_entries(es, 0);
            assert(ser_opt_cfg(o) =~= seq!['+'] + (a + b));
            lemma_peel_char(s, pos, '+', a + b);
            lemma_split(s, pos + 1, a, b);
            lemma_parse_ser_num(s, pos + 1, es.len());
            lemma_parse_ser_entries(s, pos + 1 + a.len(), es, 0);
            assert(es.skip(0) =~= es);
        },
    }
}

/// Parsing a serialized node record yields the node back.
proof fn lemma_parse_ser_node(s: Seq<char>, pos: int, n: NodeView)
    requires
        node_ok(n),
        crate::config::node_wf(n),
        0 <= pos,
        pos + ser_node(n).len() <= s.len(),
        s.subrange(pos, pos + ser_node(n).len()) == ser_node(n),
    ensures
        parse_node(s, pos) == Some((n, pos + ser_node(n).len())),
{
    let a = ser_str(n.id);
    let b = ser_opt_str(n.task_type);
    let c = ser_opt_int(n.base_period_ns);
    let d = ser_opt_cfg(n.config);
    let e = seq!['\n'];
    assert(ser_node(n) =~= seq!['t'] + (a + (b + (c + (d + e)))));
    lemma_peel_char(s, pos, 't', a + (b + (c + (d + e))));
    let p1 = pos + 1;
    lemma_split(s, p1, a, b + (c + (d + e)));
    lemma_parse_ser_str(s, p1, n.id);
    let p2 = p1 + a.len();
    lemma_split(s, p2, b, c + (d + e));
    lemma_parse_ser_opt_str(s, p2, n.task_type);
    let p3 = p2 + b.len();
    lemma_split(s, p3, c, d + e);
    lemma_parse_ser_opt_int(s, p3, n.base_period_ns);
    let p4 = p3 + c.len();
    lemma_split(s, p4, d, e);
    lemma_parse_ser_opt_cfg(s, p4, n.config);
    let p5 = p4 + d.len();
    assert(s.subrange(p5, p5 + 1)[0] == '\n');
}

/// Parsing the serialized node records from position `i` on yields them
/// back.
proof fn lemma_parse_ser_nodes(s: Seq<char>, pos: int, ns: Seq<NodeView>, i: int)
    requires
        forall|j: int|
            0 <= j < ns.len() ==> node_ok(#[trigger] ns[j]) && crate::config::node_wf(ns[j]),
        0 <= i <= ns.len(),
        0 <= pos,
        pos + ser_nodes(ns, i).len() <= s.len(),
        s.subrange(pos, pos + ser_nodes(ns, i).len()) == ser_nodes(ns, i),
    ensures
        parse_nodes(s, pos, ns.len() - i) == Some((ns.skip(i), pos + ser_nodes(ns, i).len())),
    decreases ns.len() - i,
{
    if i == ns.len() {
        assert(ns.skip(i) =~= Seq::empty());
    } else {
        let a = ser_node(ns[i]);
        let b = ser_nodes(ns, i + 1);
        assert(ser_nodes(ns, i) =~= a + b);
        lemma_split(s, pos, a, b);
        lemma_parse_ser_node(s, pos, ns[i]);
        lemma_parse_ser_nodes(s, pos + a.len(), ns, i + 1);
        assert(seq![ns[i]] + ns.skip(i + 1) =~= ns.skip(i));
    }
}

/// Parsing a serialized connection record yields it back.
proof fn lemma_parse_ser_cnx(s: Seq<char>, pos: int, c: CnxView)
    requires
        str_ok(c.src) && str_ok(c.dst) && str_ok(c.msg),
        0 <= pos,
        pos + ser_cnx(c).len() <= s.len(),
        s.subrange(pos, pos + ser_cnx(c).len()) == ser_cnx(c),
    ensures
        parse_cnx(s, pos) == Some((c, pos + ser_cnx(c).len())),
{
    let a = ser_str(c.src);
    let b = ser_str(c.dst);
    let d = ser_str(c.msg);
    let e = seq!['\n'];
    assert(ser_cnx(c) =~= seq!['c'] + (a + (b + (d + e))));
    lemma_peel_char(s, pos, 'c', a + (b + (d + e)));
    let p1 = pos + 1;
    lemma_split(s, p1, a, b + (d + e));
    lemma_parse_ser_str(s, p1, c.src);
    let p2 = p1 + a.len();
    lemma_split(s, p2, b, d + e);
    lemma_parse_ser_str(s, p2, c.dst);
    let p3 = p2 + b.len();
    lemma_split(s, p3, d, e);
    lemma_parse_ser_str(s, p3, c.msg);
    let p4 = p3 + d.len();
    assert(s.subrange(p4, p4 + 1)[0] == '\n');
}

/// Parsing the serialized connection records from position `i` on yields
/// them back.
proof fn lemma_parse_ser_cnxs(s: Seq<char>, pos: int, cs: Seq<CnxView>, i: int)
    requires
        forall|j: int|
            0 <= j < cs.len() ==> str_ok((#[trigger] cs[j]).src) && str_ok(cs[j].dst) && str_ok(
                cs[j].msg,
            ),
        0 <= i <= cs.len(),
        0 <= pos,
        pos + ser_cnxs(cs, i).len() <= s.len(),
        s.subrange(pos, pos + ser_cnxs(cs, i).len()) == ser_cnxs(cs, i),
    ensures
        parse_cnxs(s, pos, cs.len() - i) == Some((cs.skip(i), pos + ser_cnxs(cs, i).len())),
    decreases cs.len() - i,
{
    if i == cs.len() {
        assert(cs.skip(i) =~= Seq::empty());
    } else {
        let a = ser_cnx(cs[i]);
        let b = ser_cnxs(cs, i + 1);
        assert(ser_cnxs(cs, i) =~= a + b);
        lemma_split(s, pos, a, b);
        lemma_parse_ser_cnx(s, pos, cs[i]);
        lemma_parse_ser_cnxs(s, pos + a.len(), cs, i + 1);
        assert(seq![cs[i]] + cs.skip(i + 1) =~= cs.skip(i));
    }
}

/// Every string and count in the textual representation fits the format.
pub open spec fn rep_ok(rep: RepView) -> bool {
    &&& rep.tasks.len() <= max_nodes()
    &&& rep.cnx.len() <= max_num()
    &&& forall|j: int|
        0 <= j < rep.tasks.len() ==> node_ok(#[trigger] rep.tasks[j]) && crate::config::node_wf(
            rep.tasks[j],
        )
    &&& forall|j: int|
        0 <= j < rep.cnx.len() ==> str_ok((#[trigger] rep.cnx[j]).src) && str_ok(rep.cnx[j].dst)
            && str_ok(rep.cnx[j].msg)
}

/// Parsing a serialized representation yields the representation back.
#[verifier::rlimit(60)]
proof fn lemma_parse_ser_rep(rep: RepView)
    requires
        rep_ok(rep),
    ensures
        parse_rep(ser_rep(rep)) == Some(rep),
{
    let s = ser_rep(rep);
    let a = ser_num(rep.tasks.len());
    let b = ser_nodes(rep.tasks, 0);
    let c = ser_num(rep.cnx.len());
    let d = ser_cnxs(rep.cnx, 0);
    assert(s.subrange(0, s.len() as int) =~= a + (b + (c + d)));
    lemma_split(s, 0, a, b + (c + d));
    lemma_parse_ser_num(s, 0, rep.tasks.len());
    let p1 = a.len() as int;
    lemma_split(s, p1, b, c + d);
    lemma_parse_ser_nodes(s, p1, rep.tasks, 0);
    assert(rep.tasks.skip(0) =~= rep.tasks);
    let p2 = p1 + b.len();
    lemma_split(s, p2, c, d);
    lemma_parse_ser_num(s, p2, rep.cnx.len());
    let p3 = p2 + c.len();
    lemma_parse_ser_cnxs(s, p3, rep.cnx, 0);
    assert(rep.cnx.skip(0) =~= rep.cnx);
}

/// With pairwise distinct ids, looking up the id of node `i` from position
/// `j` at or before `i` finds exactly `i`.
proof fn lemma_find_unique(ns: Seq<NodeView>, i: int, j: int)
    requires
        forall|a: int, b: int|
            0 <= a < b < ns.len() ==> (#[trigger] ns[a]).id != (#[trigger] ns[b]).id,
        0 <= j <= i < ns.len(),
    ensures
        find_node_from(ns, ns[i].id, j) == Some(i),
    decreases i - j,
{
    if j < i {
        lemma_find_unique(ns, i, j + 1);
    }
}

/// Resolving the textual connections of a graph with unique ids yields the
/// graph's own edges back.
proof fn lemma_resolve_cnxs_of(c: CuConfigView, k: int)
    requires
        crate::config::config_wf(c),
        crate::config::unique_ids(c),
        0 <= k <= c.edges.len(),
    ensures
        resolve_cnxs(rep_of(c).tasks, rep_of(c).cnx, k) == Ok::<Seq<EdgeView>, Seq<char>>(
            c.edges.skip(k),
        ),
    decreases c.edges.len() - k,
{
    let rep = rep_of(c);
    if k == c.edges.len() {
        assert(c.edges.skip(k) =~= Seq::empty());
    } else {
        lemma_find_unique(rep.tasks, c.edges[k].src, 0);
        lemma_find_unique(rep.tasks, c.edges[k].dst, 0);
        lemma_resolve_cnxs_of(c, k + 1);
        assert(seq![
            EdgeView { src: c.edges[k].src, dst: c.edges[k].dst, msg: c.edges[k].msg },
        ] + c.edges.skip(k + 1) =~= c.edges.skip(k));
    }
}

/// Round trip: serializing a well-formed graph with unique node ids and
/// parsing the text back yields the graph's own representation, and
/// resolving that representation yields the graph itself.
pub proof fn lemma_config_round_trip(c: CuConfigView)
    requires
        crate::config::config_wf(c),
        crate::config::unique_ids(c),
        config_ok(c),
    ensures
        parse_rep(ser_config(c)) == Some(rep_of(c)),
        resolve_rep(rep_of(c)) == Ok::<CuConfigView, Seq<char>>(c),
{
    let rep = rep_of(c);
    assert(rep_ok(rep)) by {
        assert forall|j: int|
            0 <= j < rep.cnx.len() implies str_ok((#[trigger] rep.cnx[j]).src) && str_ok(
            rep.cnx[j].dst,
        ) && str_ok(rep.cnx[j].msg) by {
            assert(node_ok(c.nodes[c.edges[j].src]));
            assert(node_ok(c.nodes[c.edges[j].dst]));
        }
    }
    lemma_parse_ser_rep(rep);
    lemma_resolve_cnxs_of(c, 0);
    assert(c.edges.skip(0) =~= c.edges);
    assert(CuConfigView { nodes: rep.tasks, edges: c.edges.skip(0) } == c);
}

/// Appends one digit character.
fn push_digit(out: &mut String, d: u64)
    requires
        d < 10,
    ensures
        final(out)@ == old(out)@ + seq![dig_char(d as int)],
{
    if d == 0 {
        out.append("0");
        proof {
            reveal_strlit("0");
            assert(out@ =~= old(out)@ + seq![dig_char(d as int)]);
        }
    } else if d == 1 {
        out.append("1");
        proof {
            reveal_strlit("1");
            assert(out@ =~= old(out)@ + seq![dig_char(d as int)]);
        }
    } else if d == 2 {
        out.append("2");
        proof {
            reveal_strlit("2");
            assert(out@ =~= old(out)@ + seq![dig_char(d as int)]);
        }
    } else if d == 3 {
        out.append("3");
        proof {
            reveal_strlit("3");
            assert(out@ =~= old(out)@ + seq![dig_char(d as int)]);
        }
    } else if d == 4 {
        out.append("4");
        proof {
            reveal_strlit("4");
            assert(out@ =~= old(out)@ + seq![dig_char(d as int)]);
        }
    } else if d == 5 {
        out.append("5");
        proof {
            reveal_strlit("5");
            assert(out@ =~= old(out)@ + seq![dig_char(d as int)]);
        }
    } else if d == 6 {
        out.append("6");
        proof {
            reveal_strlit("6");
            assert(out@ =~= old(out)@ + seq![dig_char(d as int)]);
        }
    } else if d == 7 {
        out.append("7");
        proof {
            reveal_strlit("7");
            assert(out@ =~= old(out)@ + seq![dig_char(d as int)]);
        }
    } else if d == 8 {
        out.append("8");
        proof {
            reveal_strlit("8");
            assert(out@ =~= old(out)@ + seq![dig_char(d as int)]);
        }
    } else {
        out.append("9");
        proof {
            reveal_strlit("9");
            assert(out@ =~= old(out)@ + seq![dig_char(d as int)]);
        }
    }
}

/// Appends the decimal digits of `n`.
fn push_nat(out: &mut String, n: u64)
    ensures
        final(out)@ == old(out)@ + ser_nat(n as nat),
    decreases n,
{
    if n < 10 {
        push_digit(out, n);
    } else {
        push_nat(out, n / 10);
        push_digit(out, n % 10);
        proof {
            assert(ser_nat(n as nat) == ser_nat((n as nat) / 10).push(
                dig_char(((n as nat) % 10) as int),
            ));
            assert(out@ =~= old(out)@ + ser_nat(n as nat));
        }
    }
}

/// Appends a number with its `:` terminator.
fn push_num(out: &mut String, n: u64)
    ensures
        final(out)@ == old(out)@ + ser_num(n as nat),
{
    push_nat(out, n);
    out.append(":");
    proof {
        reveal_strlit(":");
        assert(out@ =~= old(out)@ + ser_num(n as nat));
    }
}

/// Appends a signed number.
fn push_int(out: &mut String, v: i64)
    ensures
        final(out)@ == old(out)@ + ser_int(v as int),
{
    if v < 0 {
        out.append("-");
        let m: u64 = if v == i64::MIN {
            9223372036854775808u64
        } else {
            (-v) as u64
        };
        proof {
            assert(m as int == -(v as int));
        }
        push_num(out, m);
        proof {
            reveal_strlit("-");
            assert(out@ =~= old(out)@ + ser_int(v as int));
        }
    } else {
        push_num(out, v as u64);
    }
}

/// Appends a length-prefixed string.
fn push_str_field(out: &mut String, s: &str)
    ensures
        final(out)@ == old(out)@ + ser_str(s@),
{
    let l = s.unicode_len();
    push_num(out, l as u64);
    out.append(s);
    proof {
        assert(out@ =~= old(out)@ + ser_str(s@));
    }
}

/// The spec image of an optional owned string.
pub open spec fn opt_str_view(o: Option<String>) -> Option<Seq<char>> {
    match o {
        Some(ref s) => Some(s@),
        None => None,
    }
}

/// Appends an optional length-prefixed string.
fn push_opt_str(out: &mut String, o: &Option<String>)
    ensures
        final(out)@ == old(out)@ + ser_opt_str(opt_str_view(*o)),
{
    match o {
        None => {
            out.append("_");
            proof {
                reveal_strlit("_");
                assert(out@ =~= old(out)@ + ser_opt_str(opt_str_view(*o)));
            }
        },
        Some(t) => {
            out.append("+");
            push_str_field(out, t.as_str());
            proof {
                reveal_strlit("+");
                assert(out@ =~= old(out)@ + ser_opt_str(opt_str_view(*o)));
            }
        },
    }
}

/// Appends an optional signed number.
fn push_opt_int(out: &mut String, o: Option<i64>)
    ensures
        final(out)@ == old(out)@ + ser_opt_int(o),
{
    match o {
        None => {
            out.append("_");
            proof {
                reveal_strlit("_");
                assert(out@ =~= old(out)@ + ser_opt_int(o));
            }
        },
        Some(v) => {
            out.append("+");
            push_int(out, v);
            proof {
                reveal_strlit("+");
                assert(out@ =~= old(out)@ + ser_opt_int(o));
            }
        },
    }
}

/// Appends a tagged value.
fn push_value(out: &mut String, v: &Value)
    ensures
        final(out)@ == old(out)@ + ser_value(v@),
{
    match v {
        Value::Integer(i) => {
            out.append("i");
            push_int(out, *i);
            proof {
                reveal_strlit("i");
                assert(out@ =~= old(out)@ + ser_value(v@));
            }
        },
        Value::FloatBits(b) => {
            out.append("f");
            push_num(out, *b);
            proof {
                reveal_strlit("f");
                assert(out@ =~= old(out)@ + ser_value(v@));
            }
        },
        Value::Text(t) => {
            out.append("s");
            push_str_field(out, t.as_str());
            proof {
                reveal_strlit("s");
                assert(out@ =~= old(out)@ + ser_value(v@));
            }
        },
    }
}

/// Appends an optional instance configuration.
fn push_opt_cfg(out: &mut String, o: &Option<NodeInstanceConfig>)
    ensures
        final(out)@ == old(out)@ + ser_opt_cfg(
            match *o {
                Some(ref c) => Some(c@),
                None => None,
            },
        ),
{
    match o {
        None => {
            out.append("_");
            proof {
                reveal_strlit("_");
                assert(out@ =~= old(out)@ + seq!['_']);
            }
        },
        Some(cfg) => {
            out.append("+");
            push_num(out, cfg.entries.len() as u64);
            let ghost es = cfg@;
            let ghost mid = out@;
            let mut i: usize = 0;
            while i < cfg.entries.len()
                invariant
                    i <= cfg.entries.len(),
                    out@ + ser_entries(es, i as int) == mid + ser_entries(es, 0),
                decreases cfg.entries.len() - i,
            {
                let ghost before = out@;
                push_str_field(out, cfg.entries[i].0.as_str());
                push_value(out, &cfg.entries[i].1);
                proof {
                    assert(es[i as int].0 == cfg.entries@[i as int].0@);
                    assert(es[i as int].1 == cfg.entries@[i as int].1@);
                    assert(ser_entries(es, i as int) == ser_str(es[i as int].0) + ser_value(
                        es[i as int].1,
                    ) + ser_entries(es, i + 1));
                    assert(out@ + ser_entries(es, i + 1) =~= mid + ser_entries(es, 0));
                }
                i = i + 1;
            }
            proof {
                reveal_strlit("+");
                assert(out@ + ser_entries(es, es.len() as int) =~= out@);
                assert(out@ =~= old(out)@ + ser_opt_cfg(Some(es)));
            }
        },
    }
}

/// Appends one node record.
fn push_node(out: &mut String, n: &crate::config::Node)
    ensures
        final(out)@ == old(out)@ + ser_node(n@),
{
    out.append("t");
    push_str_field(out, n.id.as_str());
    push_opt_str(out, &n.type_);
    push_opt_int(out, n.base_period_ns);
    push_opt_cfg(out, &n.config);
    out.append("\n");
    proof {
        reveal_strlit("t");
        reveal_strlit("\n");
        assert(out@ =~= old(out)@ + ser_node(n@));
    }
}

/// The label a node carries in the diagnostic rendering: its id, and its
/// type when it has one.
pub open spec fn render_label(n: NodeView) -> Seq<char> {
    match n.task_type {
        Some(t) => n.id + seq!['/'] + t,
        None => n.id,
    }
}

/// The diagnostic lines for the nodes from position `i` on.
pub open spec fn render_nodes(ns: Seq<NodeView>, i: int) -> Seq<char>
    decreases ns.len() - i,
{
    if i < 0 || i >= ns.len() {
        Seq::empty()
    } else {
        "  "@ + ser_nat(i as nat) + " [label=\""@ + render_label(ns[i]) + "\"]\n"@ + render_nodes(
            ns,
            i + 1,
        )
    }
}

/// The diagnostic lines for the edges from position `k` on; edge labels are
/// elided.
pub open spec fn render_edges(es: Seq<EdgeView>, k: int) -> Seq<char>
    decreases es.len() - k,
{
    if k < 0 || k >= es.len() {
        Seq::empty()
    } else {
        "  "@ + ser_nat(es[k].src as nat) + " -> "@ + ser_nat(es[k].dst as nat) + "\n"@
            + render_edges(es, k + 1)
    }
}

/// The whole diagnostic rendering: a directed-graph description with node
/// labels and unlabeled edges. Lossy by design; only the serialization
/// round-trips.
pub open spec fn spec_render(c: CuConfigView) -> Seq<char> {
    "digraph {\n"@ + render_nodes(c.nodes, 0) + render_edges(c.edges, 0) + "}\n"@
}

/// The digit value of `c`, or `None` when `c` is no digit.
fn digit_of(c: char) -> (r: Option<u64>)
    ensures
        match r {
            Some(d) => d < 10 && dig_val(c) == d as int,
            None => !is_digit(c),
        },
{
    match c {
        '0' => Some(0),
        '1' => Some(1),
        '2' => Some(2),
        '3' => Some(3),
        '4' => Some(4),
        '5' => Some(5),
        '6' => Some(6),
        '7' => Some(7),
        '8' => Some(8),
        '9' => Some(9),
        _ => None,
    }
}

/// The value of a digit run is never negative.
proof fn lemma_digits_val_nonneg(s: Seq<char>, pos: int, k: int)
    requires
        pos <= k,
        forall|i: int| pos <= i < k ==> is_digit(#[trigger] s[i]),
    ensures
        digits_val(s, pos, k) >= 0,
    decreases k - pos,
{
    if k > pos {
        lemma_digits_val_nonneg(s, pos, k - 1);
    }
}

/// The value of a digit run only grows as the run extends.
proof fn lemma_digits_val_mono(s: Seq<char>, pos: int, k: int, e: int)
    requires
        pos <= k <= e,
        forall|i: int| pos <= i < e ==> is_digit(#[trigger] s[i]),
    ensures
        digits_val(s, pos, e) >= digits_val(s, pos, k),
    decreases e - k,
{
    if e > k {
        lemma_digits_val_mono(s, pos, k, e - 1);
        lemma_digits_val_nonneg(s, pos, e - 1);
    }
}

/// Whether the character at `e` exists and is a digit.
fn at_digit(s: &str, n: usize, e: usize) -> (b: bool)
    requires
        n == s@.len(),
        e <= n,
    ensures
        b == (e < n && is_digit(s@[e as int])),
{
    if e >= n {
        false
    } else {
        digit_of(s.get_char(e)).is_some()
    }
}

/// Reads a number at `pos`.
fn p_num(s: &str, n: usize, pos: usize) -> (r: Option<(u64, usize)>)
    requires
        n == s@.len(),
        pos <= n,
    ensures
        match parse_num(s@, pos as int) {
            Some(vp) => r matches Some(t) && t.0 as int == vp.0 && t.1 as int == vp.1 && t.1 <= n,
            None => r is None,
        },
{
    let mut e = pos;
    while at_digit(s, n, e)
        invariant
            pos <= e <= n,
            forall|i: int| pos <= i < e ==> is_digit(#[trigger] s@[i]),
            digits_end(s@, pos as int) == digits_end(s@, e as int),
        decreases n - e,
    {
        e = e + 1;
    }
    proof {
        assert(digits_end(s@, e as int) == e as int);
    }
    if e == pos {
        return None;
    }
    if s.get_char(pos) == '0' && e > pos + 1 {
        return None;
    }
    let mut acc: u64 = 0;
    let mut k = pos;
    while k < e
        invariant
            pos <= k <= e,
            acc as int == digits_val(s@, pos as int, k as int),
        decreases e - k,
    {
        let c = s.get_char(k);
        let d = match digit_of(c) {
            Some(d) => d,
            None => vstd::pervasive::unreached(),
        };
        if acc > (u64::MAX - d) / 10 {
            proof {
                assert(digits_val(s@, pos as int, k + 1 as int) > max_num());
                lemma_digits_val_mono(s@, pos as int, k + 1 as int, e as int);
            }
            return None;
        }
        acc = acc * 10 + d;
        k = k + 1;
    }
    if e < n {
        if s.get_char(e) == ':' {
            return Some((acc, e + 1));
        }
    }
    None
}

/// Reads a length-prefixed string at `pos`.
fn p_str(s: &str, n: usize, pos: usize) -> (r: Option<(String, usize)>)
    requires
        n == s@.len(),
        pos <= n,
    ensures
        match parse_str(s@, pos as int) {
            Some(tp) => r matches Some(t) && t.0@ == tp.0 && t.1 as int == tp.1 && t.1 <= n,
            None => r is None,
        },
{
    match p_num(s, n, pos) {
        None => None,
        Some((l, p)) => {
            if l > (n - p) as u64 {
                return None;
            }
            let lu = l as usize;
            let sub = s.substring_char(p, p + lu);
            Some((String::from_str(sub), p + lu))
        },
    }
}

/// Reads a signed number at `pos`.
fn p_int(s: &str, n: usize, pos: usize) -> (r: Option<(i64, usize)>)
    requires
        n == s@.len(),
        pos <= n,
    ensures
        match parse_int(s@, pos as int) {
            Some(vp) => r matches Some(t) && t.0 == vp.0 && t.1 as int == vp.1 && t.1 <= n,
            None => r is None,
        },
{
    if pos < n && s.get_char(pos) == '-' {
        match p_num(s, n, pos + 1) {
            None => None,
            Some((v, p)) => {
                if v == 0 || v > 9223372036854775808u64 {
                    None
                } else {
                    let w: i64 = if v == 9223372036854775808u64 {
                        i64::MIN
                    } else {
                        -(v as i64)
                    };
                    Some((w, p))
                }
            },
        }
    } else {
        match p_num(s, n, pos) {
            None => None,
            Some((v, p)) => {
                if v > 9223372036854775807u64 {
                    None
                } else {
                    Some((v as i64, p))
                }
            },
        }
    }
}

/// Reads an optional string at `pos`.
fn p_opt_str(s: &str, n: usize, pos: usize) -> (r: Option<(Option<String>, usize)>)
    requires
        n == s@.len(),
        pos <= n,
    ensures
        match parse_opt_str(s@, pos as int) {
            Some(op) => r matches Some(t) && opt_str_view(t.0) == op.0 && t.1 as int == op.1 && t.1
                <= n,
            None => r is None,
        },
{
    if pos < n {
        let c = s.get_char(pos);
        if c == '_' {
            return Some((None, pos + 1));
        }
        if c == '+' {
            return match p_str(s, n, pos + 1) {
                None => None,
                Some((t, p)) => Some((Some(t), p)),
            };
        }
    }
    None
}

/// Reads an optional signed number at `pos`.
fn p_opt_int(s: &str, n: usize, pos: usize) -> (r: Option<(Option<i64>, usize)>)
    requires
        n == s@.len(),
        pos <= n,
    ensures
        match parse_opt_int(s@, pos as int) {
            Some(op) => r matches Some(t) && t.0 == op.0 && t.1 as int == op.1 && t.1 <= n,
            None => r is None,
        },
{
    if pos < n {
        let c = s.get_char(pos);
        if c == '_' {
            return Some((None, pos + 1));
        }
        if c == '+' {
            return match p_int(s, n, pos + 1) {
                None => None,
                Some((v, p)) => Some((Some(v), p)),
            };
        }
    }
    None
}

/// Reads a tagged value at `pos`.
fn p_value(s: &str, n: usize, pos: usize) -> (r: Option<(Value, usize)>)
    requires
        n == s@.len(),
        pos <= n,
    ensures
        match parse_value(s@, pos as int) {
            Some(vp) => r matches Some(t) && t.0@ == vp.0 && t.1 as int == vp.1 && t.1 <= n,
            None => r is None,
        },
{
    if pos < n {
        let c = s.get_char(pos);
        if c == 'i' {
            return match p_int(s, n, pos + 1) {
                None => None,
                Some((v, p)) => Some((Value::Integer(v), p)),
            };
        }
        if c == 'f' {
            return match p_num(s, n, pos + 1) {
                None => None,
                Some((b, p)) => Some((Value::FloatBits(b), p)),
            };
        }
        if c == 's' {
            return match p_str(s, n, pos + 1) {
                None => None,
                Some((t, p)) => Some((Value::Text(t), p)),
            };
        }
    }
    None
}

/// The spec image of a vector of owned entries.
pub open spec fn entries_view(es: Seq<(String, Value)>) -> Seq<(Seq<char>, ValueView)> {
    es.map_values(|q: (String, Value)| (q.0@, q.1@))
}

/// The spec image of a vector of owned nodes.
pub open spec fn nodes_view(ns: Seq<crate::config::Node>) -> Seq<NodeView> {
    ns.map_values(|nd: crate::config::Node| nd@)
}

/// The spec image of a vector of owned connection records.
pub open spec fn cnxs_view(cs: Seq<crate::config::Cnx>) -> Seq<CnxView> {
    cs.map_values(|c: crate::config::Cnx| c@)
}

/// The spec image of a vector of index edges.
pub open spec fn edges_view(es: Seq<(u32, u32, String)>) -> Seq<EdgeView> {
    Seq::new(
        es.len(),
        |k: int| EdgeView { src: es[k].0 as int, dst: es[k].1 as int, msg: es[k].2@ },
    )
}

/// Whether the entry keys are pairwise distinct.
fn cfg_keys_unique(entries: &Vec<(String, Value)>) -> (b: bool)
    ensures
        b == cfg_wf(entries_view(entries@)),
{
    let ghost ev = entries_view(entries@);
    let mut i: usize = 0;
    while i < entries.len()
        invariant
            i <= entries.len(),
            forall|a: int, b: int| 0 <= a < b < i ==> (#[trigger] ev[a]).0 != (#[trigger] ev[b]).0,
        decreases entries.len() - i,
    {
        let mut j: usize = 0;
        while j < i
            invariant
                j <= i < entries.len(),
                forall|a: int| 0 <= a < j ==> (#[trigger] ev[a]).0 != ev[i as int].0,
            decreases i - j,
        {
            if entries[j].0 == entries[i].0 {
                proof {
                    assert(ev[j as int].0 == ev[i as int].0);
                }
                return false;
            }
            j = j + 1;
        }
        i = i + 1;
    }
    true
}

/// Reads `count` configuration entries at `pos`.
fn p_entries(s: &str, n: usize, pos: usize, count: u64) -> (r: Option<(Vec<(String, Value)>, usize)>)
    requires
        n == s@.len(),
        pos <= n,
    ensures
        match parse_entries(s@, pos as int, count as int) {
            Some(ep) => r matches Some(t) && entries_view(t.0@) == ep.0 && t.1 as int == ep.1 && t.1
                <= n,
            None => r is None,
        },
{
    let mut acc: Vec<(String, Value)> = Vec::new();
    let mut cur = pos;
    let mut i: u64 = 0;
    while i < count
        invariant
            cur <= n,
            i <= count,
            match parse_entries(s@, cur as int, (count - i) as int) {
                Some(ep) => parse_entries(s@, pos as int, count as int) matches Some(fp) && fp.0
                    == entries_view(acc@) + ep.0 && fp.1 == ep.1,
                None => parse_entries(s@, pos as int, count as int) is None,
            },
        decreases count - i,
    {
        let (k, p1) = match p_str(s, n, cur) {
            None => {
                return None;
            },
            Some(t) => t,
        };
        let (v, p2) = match p_value(s, n, p1) {
            None => {
                return None;
            },
            Some(t) => t,
        };
        let ghost accv = entries_view(acc@);
        let ghost kv = (k@, v@);
        acc.push((k, v));
        proof {
            assert(entries_view(acc@) =~= accv.push(kv));
            match parse_entries(s@, p2 as int, (count - i - 1) as int) {
                Some(ep) => {
                    assert(accv.push(kv) + ep.0 =~= accv + (seq![kv] + ep.0));
                },
                None => {},
            }
        }
        cur = p2;
        i = i + 1;
    }
    proof {
        assert(entries_view(acc@) + Seq::<(Seq<char>, ValueView)>::empty() =~= entries_view(acc@));
    }
    Some((acc, cur))
}

/// Reads an optional instance configuration at `pos`.
fn p_opt_cfg(s: &str, n: usize, pos: usize) -> (r: Option<(Option<NodeInstanceConfig>, usize)>)
    requires
        n == s@.len(),
        pos <= n,
    ensures
        match parse_opt_cfg(s@, pos as int) {
            Some(op) => r matches Some(t) && (match t.0 {
                Some(ref c) => op.0 == Some(c@) && cfg_wf(c@),
                None => op.0 is None,
            }) && t.1 as int == op.1 && t.1 <= n,
            None => r is None,
        },
{
    if pos < n {
        let c = s.get_char(pos);
        if c == '_' {
            return Some((None, pos + 1));
        }
        if c == '+' {
            let (cnt, p1) = match p_num(s, n, pos + 1) {
                None => {
                    return None;
                },
                Some(t) => t,
            };
            let (es, p2) = match p_entries(s, n, p1, cnt) {
                None => {
                    return None;
                },
                Some(t) => t,
            };
            if !cfg_keys_unique(&es) {
                return None;
            }
            let cfg = NodeInstanceConfig { entries: es };
            proof {
                assert(cfg@ =~= entries_view(cfg.entries@));
            }
            return Some((Some(cfg), p2));
        }
    }
    None
}

/// Reads one node record at `pos`.
fn p_node(s: &str, n: usize, pos: usize) -> (r: Option<(crate::config::Node, usize)>)
    requires
        n == s@.len(),
        pos <= n,
    ensures
        match parse_node(s@, pos as int) {
            Some(np) => r matches Some(t) && t.0@ == np.0 && t.1 as int == np.1 && t.1 <= n
                && crate::config::node_wf(t.0@),
            None => r is None,
        },
{
    if pos < n && s.get_char(pos) == 't' {
        let (id, p1) = match p_str(s, n, pos + 1) {
            None => {
                return None;
            },
            Some(t) => t,
        };
        let (ty, p2) = match p_opt_str(s, n, p1) {
            None => {
                return None;
            },
            Some(t) => t,
        };
        let (bp, p3) = match p_opt_int(s, n, p2) {
            None => {
                return None;
            },
            Some(t) => t,
        };
        let (cfg, p4) = match p_opt_cfg(s, n, p3) {
            None => {
                return None;
            },
            Some(t) => t,
        };
        if p4 < n && s.get_char(p4) == '\n' {
            let node = crate::config::Node { id: id, type_: ty, base_period_ns: bp, config: cfg };
            return Some((node, p4 + 1));
        }
        return None;
    }
    None
}

/// Reads `count` node records at `pos`.
fn p_nodes(s: &str, n: usize, pos: usize, count: u64) -> (r: Option<(Vec<crate::config::Node>, usize)>)
    requires
        n == s@.len(),
        pos <= n,
    ensures
        match parse_nodes(s@, pos as int, count as int) {
            Some(np) => r matches Some(t) && nodes_view(t.0@) == np.0 && t.1 as int == np.1 && t.1
                <= n && t.0@.len() == count && (forall|j: int|
                0 <= j < t.0@.len() ==> crate::config::node_wf(#[trigger] nodes_view(t.0@)[j])),
            None => r is None,
        },
{
    let mut acc: Vec<crate::config::Node> = Vec::new();
    let mut cur = pos;
    let mut i: u64 = 0;
    while i < count
        invariant
            cur <= n,
            i <= count,
            acc@.len() == i,
            forall|j: int| 0 <= j < acc@.len() ==> crate::config::node_wf(
                #[trigger] nodes_view(acc@)[j],
            ),
            match parse_nodes(s@, cur as int, (count - i) as int) {
                Some(np) => parse_nodes(s@, pos as int, count as int) matches Some(fp) && fp.0
                    == nodes_view(acc@) + np.0 && fp.1 == np.1,
                None => parse_nodes(s@, pos as int, count as int) is None,
            },
        decreases count - i,
    {
        let (nd, p1) = match p_node(s, n, cur) {
            None => {
                return None;
            },
            Some(t) => t,
        };
        let ghost accv = nodes_view(acc@);
        let ghost nv = nd@;
        acc.push(nd);
        proof {
            assert(nodes_view(acc@) =~= accv.push(nv));
            match parse_nodes(s@, p1 as int, (count - i - 1) as int) {
                Some(np) => {
                    assert(accv.push(nv) + np.0 =~= accv + (seq![nv] + np.0));
                },
                None => {},
            }
        }
        cur = p1;
        i = i + 1;
    }
    proof {
        assert(nodes_view(acc@) + Seq::<NodeView>::empty() =~= nodes_view(acc@));
    }
    Some((acc, cur))
}

/// Reads one connection record at `pos`.
fn p_cnx(s: &str, n: usize, pos: usize) -> (r: Option<(crate::config::Cnx, usize)>)
    requires
        n == s@.len(),
        pos <= n,
    ensures
        match parse_cnx(s@, pos as int) {
            Some(cp) => r matches Some(t) && t.0@ == cp.0 && t.1 as int == cp.1 && t.1 <= n,
            None => r is None,
        },
{
    if pos < n && s.get_char(pos) == 'c' {
        let (src, p1) = match p_str(s, n, pos + 1) {
            None => {
                return None;
            },
            Some(t) => t,
        };
        let (dst, p2) = match p_str(s, n, p1) {
            None => {
                return None;
            },
            Some(t) => t,
        };
        let (msg, p3) = match p_str(s, n, p2) {
            None => {
                return None;
            },
            Some(t) => t,
        };
        if p3 < n && s.get_char(p3) == '\n' {
            return Some((crate::config::Cnx { src: src, dst: dst, msg: msg }, p3 + 1));
        }
        return None;
    }
    None
}

/// Reads `count` connection records at `pos`.
fn p_cnxs(s: &str, n: usize, pos: usize, count: u64) -> (r: Option<(Vec<crate::config::Cnx>, usize)>)
    requires
        n == s@.len(),
        pos <= n,
    ensures
        match parse_cnxs(s@, pos as int, count as int) {
            Some(cp) => r matches Some(t) && cnxs_view(t.0@) == cp.0 && t.1 as int == cp.1 && t.1
                <= n,
            None => r is None,
        },
{
    let mut acc: Vec<crate::config::Cnx> = Vec::new();
    let mut cur = pos;
    let mut i: u64 = 0;
    while i < count
        invariant
            cur <= n,
            i <= count,
            match parse_cnxs(s@, cur as int, (count - i) as int) {
                Some(cp) => parse_cnxs(s@, pos as int, count as int) matches Some(fp) && fp.0
                    == cnxs_view(acc@) + cp.0 && fp.1 == cp.1,
                None => parse_cnxs(s@, pos as int, count as int) is None,
            },
        decreases count - i,
    {
        let (cv, p1) = match p_cnx(s, n, cur) {
            None => {
                return None;
            },
            Some(t) => t,
        };
        let ghost accv = cnxs_view(acc@);
        let ghost cvv = cv@;
        acc.push(cv);
        proof {
            assert(cnxs_view(acc@) =~= accv.push(cvv));
            match parse_cnxs(s@, p1 as int, (count - i - 1) as int) {
                Some(cp) => {
                    assert(accv.push(cvv) + cp.0 =~= accv + (seq![cvv] + cp.0));
                },
                None => {},
            }
        }
        cur = p1;
        i = i + 1;
    }
    proof {
        assert(cnxs_view(acc@) + Seq::<CnxView>::empty() =~= cnxs_view(acc@));
    }
    Some((acc, cur))
}

/// The first node whose id equals `id`, by index.
fn find_node(nodes: &Vec<crate::config::Node>, id: &String) -> (r: Option<u32>)
    requires
        nodes@.len() <= max_nodes(),
    ensures
        match find_node_from(nodes_view(nodes@), id@, 0) {
            Some(i) => r matches Some(u) && u as int == i && i < nodes@.len(),
            None => r is None,
        },
{
    let mut j: usize = 0;
    while j < nodes.len()
        invariant
            j <= nodes.len(),
            find_node_from(nodes_view(nodes@), id@, 0) == find_node_from(
                nodes_view(nodes@),
                id@,
                j as int,
            ),
        decreases nodes.len() - j,
    {
        if nodes[j].id == *id {
            return Some(j as u32);
        }
        j = j + 1;
    }
    None
}

impl CuConfig {
    /// Serializes the graph into its configuration text.
    pub fn serialize_ron(&self) -> (r: String)
        requires
            self.wf(),
        ensures
            r@ == ser_config(self@),
    {
        let ghost rep = rep_of(self@);
        let mut out = String::new();
        push_num(&mut out, self.nodes.len() as u64);
        let ghost mid1 = out@;
        let mut i: usize = 0;
        while i < self.nodes.len()
            invariant
                i <= self.nodes.len(),
                out@ + ser_nodes(rep.tasks, i as int) == mid1 + ser_nodes(rep.tasks, 0),
            decreases self.nodes.len() - i,
        {
            push_node(&mut out, &self.nodes[i]);
            proof {
                assert(rep.tasks[i as int] == self.nodes@[i as int]@);
                assert(out@ + ser_nodes(rep.tasks, i + 1) =~= mid1 + ser_nodes(rep.tasks, 0));
            }
            i = i + 1;
        }
        proof {
            assert(out@ + ser_nodes(rep.tasks, rep.tasks.len() as int) =~= out@);
        }
        push_num(&mut out, self.edges.len() as u64);
        let ghost mid2 = out@;
        let mut k: usize = 0;
        while k < self.edges.len()
            invariant
                k <= self.edges.len(),
                out@ + ser_cnxs(rep.cnx, k as int) == mid2 + ser_cnxs(rep.cnx, 0),
            decreases self.edges.len() - k,
        {
            let ghost before = out@;
            let e = &self.edges[k];
            out.append("c");
            push_str_field(&mut out, self.nodes[e.0 as usize].id.as_str());
            push_str_field(&mut out, self.nodes[e.1 as usize].id.as_str());
            push_str_field(&mut out, e.2.as_str());
            out.append("\n");
            proof {
                reveal_strlit("c");
                reveal_strlit("\n");
                assert(rep.cnx[k as int].src == self.nodes@[self.edges@[k as int].0 as int].id@);
                assert(rep.cnx[k as int].dst == self.nodes@[self.edges@[k as int].1 as int].id@);
                assert(rep.cnx[k as int].msg == self.edges@[k as int].2@);
                assert(out@ =~= before + ser_cnx(rep.cnx[k as int]));
                assert(out@ + ser_cnxs(rep.cnx, k + 1) =~= mid2 + ser_cnxs(rep.cnx, 0));
            }
            k = k + 1;
        }
        proof {
            assert(out@ + ser_cnxs(rep.cnx, rep.cnx.len() as int) =~= out@);
            assert(out@ =~= ser_config(self@));
        }
        out
    }

    /// Parses configuration text into a graph.
    ///
    /// Fails with [`CuError::ConfigParseError`] exactly when the text is not
    /// a well-formed document, and with [`CuError::UnresolvedNodeReference`]
    /// exactly when a connection record names an id absent from the declared
    /// node set (reporting the first such id).
    pub fn deserialize_ron(ron: &str) -> (r: CuResult<CuConfig>)
        ensures
            match parse_rep(ron@) {
                None => r == Err::<CuConfig, CuError>(CuError::ConfigParseError),
                Some(rep) => match resolve_rep(rep) {
                    Err(id) => r matches Err(e) && e matches CuError::UnresolvedNodeReference(b)
                        && b@ == id,
                    Ok(cv) => r matches Ok(c) && c@ == cv && c.wf(),
                },
            },
    {
        let n = ron.unicode_len();
        let (cnt, p1) = match p_num(ron, n, 0) {
            None => {
                return Err(CuError::ConfigParseError);
            },
            Some(t) => t,
        };
        if cnt > 0xffff_ffffu64 {
            return Err(CuError::ConfigParseError);
        }
        let (nodes, p2) = match p_nodes(ron, n, p1, cnt) {
            None => {
                return Err(CuError::ConfigParseError);
            },
            Some(t) => t,
        };
        let (m, p3) = match p_num(ron, n, p2) {
            None => {
                return Err(CuError::ConfigParseError);
            },
            Some(t) => t,
        };
        let (cnx, p4) = match p_cnxs(ron, n, p3, m) {
            None => {
                return Err(CuError::ConfigParseError);
            },
            Some(t) => t,
        };
        if p4 != n {
            return Err(CuError::ConfigParseError);
        }
        let ghost rep = RepView { tasks: nodes_view(nodes@), cnx: cnxs_view(cnx@) };
        proof {
            assert(parse_rep(ron@) == Some(rep));
        }
        let mut edges: Vec<(u32, u32, String)> = Vec::new();
        let mut k: usize = 0;
        while k < cnx.len()
            invariant
                k <= cnx.len(),
                forall|j: int|
                    0 <= j < edges@.len() ==> ((#[trigger] edges@[j]).0 as int) < nodes@.len() && (
                    edges@[j].1 as int) < nodes@.len(),
                match resolve_cnxs(rep.tasks, rep.cnx, k as int) {
                    Ok(rest) => resolve_cnxs(rep.tasks, rep.cnx, 0) matches Ok(full) && full
                        == edges_view(edges@) + rest,
                    Err(id) => resolve_cnxs(rep.tasks, rep.cnx, 0) == Err::<
                        Seq<EdgeView>,
                        Seq<char>,
                    >(id),
                },
            decreases cnx.len() - k,
        {
            let si = match find_node(&nodes, &cnx[k].src) {
                None => {
                    return Err(CuError::UnresolvedNodeReference(cnx[k].src.clone()));
                },
                Some(u) => u,
            };
            let di = match find_node(&nodes, &cnx[k].dst) {
                None => {
                    return Err(CuError::UnresolvedNodeReference(cnx[k].dst.clone()));
                },
                Some(u) => u,
            };
            let ghost ev = edges_view(edges@);
            let ghost new_edge = EdgeView { src: si as int, dst: di as int, msg: cnx@[k as int].msg@ };
            edges.push((si, di, cnx[k].msg.clone()));
            proof {
                assert(edges_view(edges@) =~= ev.push(new_edge));
                match resolve_cnxs(rep.tasks, rep.cnx, k + 1 as int) {
                    Ok(rest) => {
                        assert(ev.push(new_edge) + rest =~= ev + (seq![new_edge] + rest));
                    },
                    Err(_) => {},
                }
            }
            k = k + 1;
        }
        let config = CuConfig { nodes: nodes, edges: edges };
        proof {
            assert(resolve_cnxs(rep.tasks, rep.cnx, cnx@.len() as int) == Ok::<
                Seq<EdgeView>,
                Seq<char>,
            >(Seq::empty()));
            assert(edges_view(edges@) + Seq::<EdgeView>::empty() =~= edges_view(edges@));
            assert(config@.nodes =~= rep.tasks);
            assert(config@.edges =~= edges_view(edges@));
            assert(crate::config::config_wf(config@));
        }
        Ok(config)
    }

    /// Produces the diagnostic rendering of the graph: topology and node
    /// labels only. This path does not round-trip.
    pub fn render(&self) -> (r: String)
        ensures
            r@ == spec_render(self@),
    {
        let mut out = String::new();
        out.append("digraph {\n");
        let ghost mid1 = out@;
        let ghost nodesv = self@.nodes;
        let mut i: usize = 0;
        while i < self.nodes.len()
            invariant
                i <= self.nodes.len(),
                nodesv == self@.nodes,
                out@ + render_nodes(nodesv, i as int) == mid1 + render_nodes(nodesv, 0),
            decreases self.nodes.len() - i,
        {
            out.append("  ");
            push_nat(&mut out, i as u64);
            out.append(" [label=\"");
            out.append(self.nodes[i].id.as_str());
            match &self.nodes[i].type_ {
                Some(t) => {
                    out.append("/");
                    out.append(t.as_str());
                    proof {
                        reveal_strlit("/");
                        assert(render_label(nodesv[i as int]) =~= self.nodes@[i as int].id@
                            + seq!['/'] + t@);
                    }
                },
                None => {},
            }
            out.append("\"]\n");
            proof {
                assert(out@ + render_nodes(nodesv, i + 1) =~= mid1 + render_nodes(nodesv, 0));
            }
            i = i + 1;
        }
        proof {
            assert(out@ + render_nodes(nodesv, nodesv.len() as int) =~= out@);
        }
        let ghost mid2 = out@;
        let ghost edgesv = self@.edges;
        let mut k: usize = 0;
        while k < self.edges.len()
            invariant
                k <= self.edges.len(),
                edgesv == self@.edges,
                out@ + render_edges(edgesv, k as int) == mid2 + render_edges(edgesv, 0),
            decreases self.edges.len() - k,
        {
            out.append("  ");
            push_nat(&mut out, self.edges[k].0 as u64);
            out.append(" -> ");
            push_nat(&mut out, self.edges[k].1 as u64);
            out.append("\n");
            proof {
                assert(out@ + render_edges(edgesv, k + 1) =~= mid2 + render_edges(edgesv, 0));
            }
            k = k + 1;
        }
        proof {
            assert(out@ + render_edges(edgesv, edgesv.len() as int) =~= out@);
        }
        out.append("}\n");
        proof {
            assert(out@ =~= spec_render(self@));
        }
        out
    }
}

} // verus!
