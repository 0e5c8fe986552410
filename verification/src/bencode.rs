use vstd::prelude::*;
use vstd::string::StringSliceAdditionalSpecFns;
use vstd::utf8::encode_utf8;

verus! {

broadcast use vstd::std_specs::vec::group_vec_axioms, vstd::seq::group_seq_axioms;

/// A bencoded value.
#[derive(Debug)]
pub enum Bencode {
    Integer(i64),
    Bytes(Vec<u8>),
    List(Vec<Bencode>),
    /// Entries in the order they were read or are to be written.
    Dict(Vec<(Vec<u8>, Bencode)>),
}

/// A bencoded value as plain values.
pub enum BencodeView {
    Integer(int),
    Bytes(Seq<u8>),
    List(Seq<BencodeView>),
    Dict(Seq<(Seq<u8>, BencodeView)>),
}

/// The plain value of a [`Bencode`].
pub open spec fn bview(b: &Bencode) -> BencodeView
    decreases b,
{
    match b {
        Bencode::Integer(i) => BencodeView::Integer(*i as int),
        Bencode::Bytes(v) => BencodeView::Bytes(v@),
        Bencode::List(items) => BencodeView::List(
            Seq::new(items.len() as nat, |i: int| if 0 <= i < items.len() { bview(&items[i]) } else { BencodeView::Integer(0) }),
        ),
        Bencode::Dict(entries) => BencodeView::Dict(
            Seq::new(
                entries.len() as nat,
                |i: int|
                    if 0 <= i < entries.len() {
                        (entries[i].0@, bview(&entries[i].1))
                    } else {
                        (Seq::empty(), BencodeView::Integer(0))
                    },
            ),
        ),
    }
}

impl View for Bencode {
    type V = BencodeView;

    open spec fn view(&self) -> BencodeView {
        bview(self)
    }
}

pub open spec fn is_digit(c: u8) -> bool {
    48 <= c <= 57
}

/// How many decimal digits `b` starts with.
pub open spec fn digit_run(b: Seq<u8>) -> nat
    decreases b.len(),
{
    if b.len() > 0 && is_digit(b[0]) {
        1 + digit_run(b.drop_first())
    } else {
        0
    }
}

/// The number a string of decimal digits reads as.
pub open spec fn digits_value(s: Seq<u8>) -> nat
    decreases s.len(),
{
    if s.len() == 0 {
        0
    } else {
        digits_value(s.drop_last()) * 10 + (s.last() - 48) as nat
    }
}

/// The decimal digits of `n`, with no leading zero.
pub open spec fn decimal(n: nat) -> Seq<u8>
    decreases n,
{
    if n < 10 {
        seq![(48 + n) as u8]
    } else {
        decimal(n / 10).push((48 + n % 10) as u8)
    }
}

/// A number written the one way bencode allows: at least one digit, and no
/// leading zero unless the number is zero itself.
pub open spec fn canonical(s: Seq<u8>) -> bool {
    s.len() > 0 && (s[0] != 48u8 || s.len() == 1)
}

/// Reads a number at the start of `b`, written canonically and followed by
/// `terminator`: its value and its count of digits.
pub open spec fn spec_number(b: Seq<u8>, terminator: u8) -> Option<(nat, nat)> {
    let k = digit_run(b);
    if k > 0 && canonical(b.take(k as int)) && k < b.len() && b[k as int] == terminator {
        Some((digits_value(b.take(k as int)), k))
    } else {
        None
    }
}

/// Reads a byte string `<length>:<bytes>` at the start of `b`: the bytes and
/// how many bytes of `b` it took.
pub open spec fn spec_string(b: Seq<u8>) -> Option<(Seq<u8>, nat)> {
    match spec_number(b, 58u8) {
        Some((len, k)) => if k + 1 + len <= b.len() {
            Some((b.subrange((k + 1) as int, (k + 1 + len) as int), k + 1 + len))
        } else {
            None
        },
        None => None,
    }
}

/// Reads the value at the start of `b`: the value and how many bytes of `b`
/// it took. Integers are `i<decimal>e` within the range of an `i64`, with no
/// leading zero and no negative zero; byte strings `<length>:<bytes>`; lists
/// `l<values>e`; dictionaries `d<byte string><value>...e`, entries kept in
/// the order read.
pub open spec fn spec_parse(b: Seq<u8>) -> Option<(BencodeView, nat)>
    decreases b.len(), 0int,
{
    if b.len() == 0 {
        None
    } else if b[0] == 105u8 {
        let body = b.drop_first();
        if body.len() > 0 && body[0] == 45u8 {
            match spec_number(body.drop_first(), 101u8) {
                Some((v, k)) => if 0 < v <= 0x8000_0000_0000_0000 {
                    Some((BencodeView::Integer(-v), k + 3))
                } else {
                    None
                },
                None => None,
            }
        } else {
            match spec_number(body, 101u8) {
                Some((v, k)) => if v <= 0x7fff_ffff_ffff_ffff {
                    Some((BencodeView::Integer(v as int), k + 2))
                } else {
                    None
                },
                None => None,
            }
        }
    } else if is_digit(b[0]) {
        match spec_string(b) {
            Some((s, n)) => Some((BencodeView::Bytes(s), n)),
            None => None,
        }
    } else if b[0] == 108u8 {
        match spec_parse_items(b.drop_first()) {
            Some((items, n)) => Some((BencodeView::List(items), n + 1)),
            None => None,
        }
    } else if b[0] == 100u8 {
        match spec_parse_entries(b.drop_first()) {
            Some((entries, n)) => Some((BencodeView::Dict(entries), n + 1)),
            None => None,
        }
    } else {
        None
    }
}

/// Reads list items up to and including the closing `e`.
pub open spec fn spec_parse_items(b: Seq<u8>) -> Option<(Seq<BencodeView>, nat)>
    decreases b.len(), 1int,
{
    if b.len() == 0 {
        None
    } else if b[0] == 101u8 {
        Some((Seq::empty(), 1))
    } else {
        match spec_parse(b) {
            Some((v, n)) => if 0 < n <= b.len() {
                match spec_parse_items(b.subrange(n as int, b.len() as int)) {
                    Some((rest, m)) => Some((seq![v] + rest, n + m)),
                    None => None,
                }
            } else {
                None
            },
            None => None,
        }
    }
}

/// Reads dictionary entries up to and including the closing `e`.
pub open spec fn spec_parse_entries(b: Seq<u8>) -> Option<(Seq<(Seq<u8>, BencodeView)>, nat)>
    decreases b.len(), 1int,
{
    if b.len() == 0 {
        None
    } else if b[0] == 101u8 {
        Some((Seq::empty(), 1))
    } else {
        match spec_string(b) {
            Some((key, kn)) => if 0 < kn <= b.len() {
                let after_key = b.subrange(kn as int, b.len() as int);
                match spec_parse(after_key) {
                    Some((v, vn)) => if 0 < vn <= after_key.len() {
                        match spec_parse_entries(after_key.subrange(vn as int, after_key.len() as int)) {
                            Some((rest, m)) => Some((seq![(key, v)] + rest, kn + vn + m)),
                            None => None,
                        }
                    } else {
                        None
                    },
                    None => None,
                }
            } else {
                None
            },
            None => None,
        }
    }
}

/// Whether every integer in `v` fits an `i64`, which is what can be written
/// and read back.
pub open spec fn wf_value(v: BencodeView) -> bool
    decreases v,
{
    match v {
        BencodeView::Integer(i) => i64::MIN <= i <= i64::MAX,
        BencodeView::Bytes(_) => true,
        BencodeView::List(items) => forall|i: int| 0 <= i < items.len() ==> wf_value(#[trigger] items[i]),
        BencodeView::Dict(entries) => forall|i: int| 0 <= i < entries.len() ==> wf_value(#[trigger] entries[i].1),
    }
}

/// The bytes a value is written as.
pub open spec fn spec_encode(v: BencodeView) -> Seq<u8>
    decreases v, 0int,
{
    match v {
        BencodeView::Integer(i) => if i < 0 {
            seq![105u8, 45u8] + decimal((-i) as nat) + seq![101u8]
        } else {
            seq![105u8] + decimal(i as nat) + seq![101u8]
        },
        BencodeView::Bytes(s) => decimal(s.len()) + seq![58u8] + s,
        BencodeView::List(items) => seq![108u8] + spec_encode_items(items) + seq![101u8],
        BencodeView::Dict(entries) => seq![100u8] + spec_encode_entries(entries) + seq![101u8],
    }
}

pub open spec fn spec_encode_items(items: Seq<BencodeView>) -> Seq<u8>
    decreases items, 1int,
{
    if items.len() == 0 {
        Seq::empty()
    } else {
        spec_encode(items[0]) + spec_encode_items(items.drop_first())
    }
}

pub open spec fn spec_encode_entries(entries: Seq<(Seq<u8>, BencodeView)>) -> Seq<u8>
    decreases entries, 1int,
{
    if entries.len() == 0 {
        Seq::empty()
    } else {
        decimal(entries[0].0.len()) + seq![58u8] + entries[0].0 + spec_encode(entries[0].1) + spec_encode_entries(
            entries.drop_first(),
        )
    }
}

proof fn lemma_encode_items_push(a: Seq<BencodeView>, x: BencodeView)
    ensures
        spec_encode_items(a.push(x)) == spec_encode_items(a) + spec_encode(x),
    decreases a.len(),
{
    if a.len() == 0 {
        assert(a.push(x).drop_first() =~= Seq::<BencodeView>::empty());
        assert(a.push(x)[0] == x);
        assert(spec_encode_items(Seq::<BencodeView>::empty()) == Seq::<u8>::empty());
        assert(spec_encode_items(a) == Seq::<u8>::empty());
        assert(spec_encode_items(a.push(x)) =~= spec_encode(x));
    } else {
        assert(a.push(x).drop_first() =~= a.drop_first().push(x));
        lemma_encode_items_push(a.drop_first(), x);
        assert(spec_encode_items(a.push(x)) =~= spec_encode_items(a) + spec_encode(x));
    }
}

proof fn lemma_encode_entries_push(a: Seq<(Seq<u8>, BencodeView)>, x: (Seq<u8>, BencodeView))
    ensures
        spec_encode_entries(a.push(x)) == spec_encode_entries(a) + (decimal(x.0.len()) + seq![58u8] + x.0
            + spec_encode(x.1)),
    decreases a.len(),
{
    if a.len() == 0 {
        assert(a.push(x).drop_first() =~= Seq::<(Seq<u8>, BencodeView)>::empty());
        assert(a.push(x)[0] == x);
        assert(spec_encode_entries(Seq::<(Seq<u8>, BencodeView)>::empty()) == Seq::<u8>::empty());
        assert(spec_encode_entries(a) == Seq::<u8>::empty());
        assert(spec_encode_entries(a.push(x)) =~= decimal(x.0.len()) + seq![58u8] + x.0 + spec_encode(x.1));
    } else {
        assert(a.push(x).drop_first() =~= a.drop_first().push(x));
        lemma_encode_entries_push(a.drop_first(), x);
        assert(spec_encode_entries(a.push(x)) =~= spec_encode_entries(a) + (decimal(x.0.len()) + seq![58u8]
            + x.0 + spec_encode(x.1)));
    }
}

/// Appends the decimal digits of `n`.
pub fn push_decimal(n: u64, out: &mut Vec<u8>)
    ensures
        final(out)@ == old(out)@ + decimal(n as nat),
    decreases n,
{
    if n >= 10 {
        push_decimal(n / 10, out);
        out.push((48 + n % 10) as u8);
        assert(out@ =~= old(out)@ + decimal(n as nat));
    } else {
        out.push((48 + n) as u8);
        assert(out@ =~= old(out)@ + decimal(n as nat));
    }
}

/// Appends the bytes of one byte string, `<length>:<bytes>`.
pub fn push_string(s: &[u8], out: &mut Vec<u8>)
    ensures
        final(out)@ == old(out)@ + (decimal(s@.len()) + seq![58u8] + s@),
{
    push_decimal(s.len() as u64, out);
    out.push(58u8);
    let ghost mid = out@;
    crate::wire_protocol::put_slice(out, s);
    assert(out@ =~= old(out)@ + (decimal(s@.len()) + seq![58u8] + s@));
}

/// Appends the bytes `value` is written as.
pub fn encode_into(value: &Bencode, out: &mut Vec<u8>)
    ensures
        final(out)@ == old(out)@ + spec_encode(value@),
    decreases value,
{
    match value {
        Bencode::Integer(i) => {
            out.push(105u8);
            if *i < 0 {
                out.push(45u8);
                let magnitude: u64 = if *i == i64::MIN {
                    0x8000_0000_0000_0000u64
                } else {
                    (-*i) as u64
                };
                push_decimal(magnitude, out);
            } else {
                push_decimal(*i as u64, out);
            }
            out.push(101u8);
            assert(out@ =~= old(out)@ + spec_encode(value@));
        },
        Bencode::Bytes(bytes) => {
            push_string(bytes.as_slice(), out);
        },
        Bencode::List(items) => {
            out.push(108u8);
            let ghost views = Seq::new(
                items.len() as nat,
                |i: int| if 0 <= i < items.len() { bview(&items[i]) } else { BencodeView::Integer(0) },
            );
            let mut i: usize = 0;
            while i < items.len()
                invariant
                    *value == Bencode::List(*items),
                    i <= items@.len(),
                    views.len() == items@.len(),
                    forall|j: int| 0 <= j < items@.len() ==> views[j] == bview(&items@[j]),
                    out@ == old(out)@ + seq![108u8] + spec_encode_items(views.take(i as int)),
                decreases items@.len() - i,
            {
                proof {
                    assert(decreases_to!(*value => value->List_0));
                    vstd::std_specs::vec::axiom_vec_index_decreases(*items, i as int);
                }
                encode_into(&items[i], out);
                proof {
                    assert(views.take(i + 1) =~= views.take(i as int).push(views[i as int]));
                    lemma_encode_items_push(views.take(i as int), views[i as int]);
                }
                i = i + 1;
            }
            out.push(101u8);
            assert(views.take(i as int) =~= views);
            assert(value@->List_0 =~= views);
            assert(value@ == BencodeView::List(views));
            assert(out@ =~= old(out)@ + spec_encode(value@));
        },
        Bencode::Dict(entries) => {
            out.push(100u8);
            let ghost views = Seq::new(
                entries.len() as nat,
                |i: int|
                    if 0 <= i < entries.len() {
                        (entries[i].0@, bview(&entries[i].1))
                    } else {
                        (Seq::empty(), BencodeView::Integer(0))
                    },
            );
            let mut i: usize = 0;
            while i < entries.len()
                invariant
                    *value == Bencode::Dict(*entries),
                    i <= entries@.len(),
                    views.len() == entries@.len(),
                    forall|j: int| 0 <= j < entries@.len() ==> views[j] == (entries@[j].0@, bview(&entries@[j].1)),
                    out@ == old(out)@ + seq![100u8] + spec_encode_entries(views.take(i as int)),
                decreases entries@.len() - i,
            {
                push_string(entries[i].0.as_slice(), out);
                proof {
                    assert(decreases_to!(*value => value->Dict_0));
                    vstd::std_specs::vec::axiom_vec_index_decreases(*entries, i as int);
                    assert(decreases_to!(entries@[i as int] => entries@[i as int].1));
                }
                encode_into(&entries[i].1, out);
                proof {
                    assert(views.take(i + 1) =~= views.take(i as int).push(views[i as int]));
                    lemma_encode_entries_push(views.take(i as int), views[i as int]);
                }
                i = i + 1;
            }
            out.push(101u8);
            assert(views.take(i as int) =~= views);
            assert(value@->Dict_0 =~= views);
            assert(value@ == BencodeView::Dict(views));
            assert(out@ =~= old(out)@ + spec_encode(value@));
        },
    }
}

/// The bytes `value` is written as.
pub fn encode(value: &Bencode) -> (r: Vec<u8>)
    ensures
        r@ == spec_encode(value@),
{
    let mut out: Vec<u8> = Vec::new();
    encode_into(value, &mut out);
    assert(out@ =~= spec_encode(value@));
    out
}

proof fn lemma_digit_run_exact(b: Seq<u8>, k: int)
    requires
        0 <= k <= b.len(),
        forall|j: int| 0 <= j < k ==> is_digit(b[j]),
        k == b.len() || !is_digit(b[k]),
    ensures
        digit_run(b) == k,
    decreases k,
{
    if k > 0 {
        lemma_digit_run_exact(b.drop_first(), k - 1);
    }
}

proof fn lemma_digit_run_at_least(b: Seq<u8>, m: int)
    requires
        0 <= m <= b.len(),
        forall|j: int| 0 <= j < m ==> is_digit(b[j]),
    ensures
        digit_run(b) >= m,
        digit_run(b) <= b.len(),
        forall|j: int| 0 <= j < digit_run(b) ==> is_digit(b[j]),
    decreases b.len(),
{
    if b.len() > 0 && is_digit(b[0]) {
        lemma_digit_run_at_least(b.drop_first(), if m > 0 { m - 1 } else { 0 });
        assert forall|j: int| 0 <= j < digit_run(b) implies is_digit(b[j]) by {
            if j > 0 {
                assert(b[j] == b.drop_first()[j - 1]);
            }
        }
    }
}

proof fn lemma_digits_value_prefix(s: Seq<u8>, j: int)
    requires
        0 <= j <= s.len(),
    ensures
        digits_value(s.take(j)) <= digits_value(s),
    decreases s.len(),
{
    if j < s.len() {
        assert(s.drop_last().take(j) =~= s.take(j));
        lemma_digits_value_prefix(s.drop_last(), j);
    } else {
        assert(s.take(j) =~= s);
    }
}

/// Reads a canonical decimal number at `pos` followed by `terminator`, when
/// its value is at most `limit`: the value and the count of digits.
pub fn parse_number(b: &[u8], pos: usize, terminator: u8, limit: u64) -> (r: Option<(u64, usize)>)
    requires
        pos <= b@.len(),
    ensures
        match spec_number(b@.subrange(pos as int, b@.len() as int), terminator) {
            Some((v, k)) => if v <= limit {
                r == Some((v as u64, k as usize))
            } else {
                r is None
            },
            None => r is None,
        },
{
    let ghost sub = b@.subrange(pos as int, b@.len() as int);
    let len = b.len();
    let mut i = pos;
    let mut acc: u64 = 0;
    while i < len && 48 <= b[i] && b[i] <= 57
        invariant
            len == b@.len(),
            pos <= i <= len,
            sub == b@.subrange(pos as int, b@.len() as int),
            forall|j: int| 0 <= j < i - pos ==> is_digit(sub[j]),
            acc == digits_value(sub.take(i - pos)),
            acc <= limit,
        decreases len - i,
    {
        let d = (b[i] - 48) as u64;
        let ghost before = sub.take(i - pos);
        let ghost after = sub.take(i - pos + 1);
        assert(after.drop_last() =~= before);
        assert(after.last() == b[i as int]);
        if d > limit || acc > (limit - d) / 10 {
            proof {
                assert(acc * 10 + d > limit) by (nonlinear_arith)
                    requires
                        d > limit || acc > (limit - d) / 10,
                        d <= 9,
                ;
                lemma_digit_run_at_least(sub, i - pos + 1);
                let k = digit_run(sub);
                assert(sub.take(k as int).take(i - pos + 1) =~= after);
                lemma_digits_value_prefix(sub.take(k as int), i - pos + 1);
            }
            return None;
        }
        assert(acc * 10 + d <= limit) by (nonlinear_arith)
            requires
                d <= limit,
                acc <= (limit - d) / 10,
                d <= 9,
        ;
        acc = acc * 10 + d;
        i = i + 1;
    }
    proof {
        lemma_digit_run_exact(sub, i - pos);
    }
    let k = i - pos;
    if k == 0 {
        return None;
    }
    if b[pos] == 48 && k != 1 {
        return None;
    }
    if i >= len || b[i] != terminator {
        return None;
    }
    Some((acc, k))
}

proof fn lemma_number_len(b: Seq<u8>, t: u8)
    ensures
        spec_number(b, t) matches Some((v, k)) ==> 0 < k < b.len(),
{
    lemma_digit_run_at_least(b, 0);
}

/// What a read takes is never nothing and never more than there is.
pub proof fn lemma_parse_len(b: Seq<u8>)
    ensures
        spec_parse(b) matches Some((v, n)) ==> 0 < n <= b.len(),
    decreases b.len(), 0int,
{
    if b.len() > 0 {
        if b[0] == 105u8 {
            lemma_number_len(b.drop_first(), 101u8);
            lemma_number_len(b.drop_first().drop_first(), 101u8);
        } else if b[0] == 108u8 {
            lemma_parse_items_len(b.drop_first());
        } else if b[0] == 100u8 {
            lemma_parse_entries_len(b.drop_first());
        }
    }
}

pub proof fn lemma_parse_items_len(b: Seq<u8>)
    ensures
        spec_parse_items(b) matches Some((v, n)) ==> 0 < n <= b.len(),
    decreases b.len(), 1int,
{
    if b.len() > 0 && b[0] != 101u8 {
        lemma_parse_len(b);
        if let Some((v, n)) = spec_parse(b) {
            if 0 < n <= b.len() {
                lemma_parse_items_len(b.subrange(n as int, b.len() as int));
            }
        }
    }
}

pub proof fn lemma_parse_entries_len(b: Seq<u8>)
    ensures
        spec_parse_entries(b) matches Some((v, n)) ==> 0 < n <= b.len(),
    decreases b.len(), 1int,
{
    if b.len() > 0 && b[0] != 101u8 {
        if let Some((key, kn)) = spec_string(b) {
            if 0 < kn <= b.len() {
                let after_key = b.subrange(kn as int, b.len() as int);
                lemma_parse_len(after_key);
                if let Some((v, vn)) = spec_parse(after_key) {
                    if 0 < vn <= after_key.len() {
                        lemma_parse_entries_len(after_key.subrange(vn as int, after_key.len() as int));
                    }
                }
            }
        }
    }
}

/// Reads a byte string at `pos`: its bytes and where it ends.
pub fn parse_string(b: &[u8], pos: usize) -> (r: Option<(Vec<u8>, usize)>)
    requires
        pos <= b@.len(),
    ensures
        match spec_string(b@.subrange(pos as int, b@.len() as int)) {
            Some((bytes, n)) => r matches Some((v, end)) && v@ == bytes && end == pos + n,
            None => r is None,
        },
{
    let ghost sub = b@.subrange(pos as int, b@.len() as int);
    let remaining = (b.len() - pos) as u64;
    match parse_number(b, pos, 58u8, remaining) {
        Some((v, k)) => {
            proof {
                lemma_number_len(sub, 58u8);
            }
            let start = pos + k + 1;
            if v > (b.len() - start) as u64 {
                return None;
            }
            let end = start + v as usize;
            let bytes = crate::wire_protocol::copy_range(b, start, end);
            assert(bytes@ =~= sub.subrange(k + 1, k + 1 + v));
            Some((bytes, end))
        },
        None => {
            proof {
                if let Some((v, k)) = spec_number(sub, 58u8) {
                    lemma_number_len(sub, 58u8);
                }
            }
            None
        },
    }
}

/// What reading the rest of a list from an offset comes to, given the items
/// already read before it.
pub open spec fn items_after(acc: Seq<BencodeView>, off: nat, r: Option<(Seq<BencodeView>, nat)>) -> Option<(Seq<BencodeView>, nat)> {
    match r {
        Some((rest, m)) => Some((acc + rest, off + m)),
        None => None,
    }
}

pub open spec fn entries_after(
    acc: Seq<(Seq<u8>, BencodeView)>,
    off: nat,
    r: Option<(Seq<(Seq<u8>, BencodeView)>, nat)>,
) -> Option<(Seq<(Seq<u8>, BencodeView)>, nat)> {
    match r {
        Some((rest, m)) => Some((acc + rest, off + m)),
        None => None,
    }
}

/// Reads the value at `pos`: the value and where it ends.
#[verifier::rlimit(60)]
pub fn parse_value(b: &[u8], pos: usize) -> (r: Option<(Bencode, usize)>)
    requires
        pos <= b@.len(),
    ensures
        match spec_parse(b@.subrange(pos as int, b@.len() as int)) {
            Some((v, n)) => r matches Some((x, end)) && x@ == v && end == pos + n,
            None => r is None,
        },
    decreases b@.len() - pos,
{
    let ghost sub = b@.subrange(pos as int, b@.len() as int);
    let len = b.len();
    if pos >= len {
        return None;
    }
    let c = b[pos];
    assert(sub[0] == c);
    if c == 105u8 {
        assert(sub.drop_first() =~= b@.subrange(pos + 1, b@.len() as int));
        if pos + 1 < len && b[pos + 1] == 45u8 {
            assert(sub.drop_first().drop_first() =~= b@.subrange(pos + 2, b@.len() as int));
            match parse_number(b, pos + 2, 101u8, 0x8000_0000_0000_0000u64) {
                Some((v, k)) => {
                    if v == 0 {
                        return None;
                    }
                    let value: i64 = if v == 0x8000_0000_0000_0000u64 {
                        i64::MIN
                    } else {
                        -(v as i64)
                    };
                    proof { lemma_number_len(sub.drop_first().drop_first(), 101u8); }
                    Some((Bencode::Integer(value), pos + k + 3))
                },
                None => None,
            }
        } else {
            match parse_number(b, pos + 1, 101u8, 0x7fff_ffff_ffff_ffffu64) {
                Some((v, k)) => {
                    proof { lemma_number_len(sub.drop_first(), 101u8); }
                    Some((Bencode::Integer(v as i64), pos + k + 2))
                },
                None => None,
            }
        }
    } else if 48u8 <= c && c <= 57u8 {
        match parse_string(b, pos) {
            Some((bytes, end)) => Some((Bencode::Bytes(bytes), end)),
            None => None,
        }
    } else if c == 108u8 {
        let mut items: Vec<Bencode> = Vec::new();
        let ghost mut acc: Seq<BencodeView> = Seq::empty();
        let mut cur = pos + 1;
        assert(sub.drop_first() =~= b@.subrange(pos + 1, b@.len() as int));
        loop
            invariant
                len == b@.len(),
                pos + 1 <= cur <= len,
                sub == b@.subrange(pos as int, b@.len() as int),
                sub[0] == 108u8,
                acc.len() == items@.len(),
                forall|j: int| 0 <= j < acc.len() ==> acc[j] == bview(&items@[j]),
                spec_parse_items(sub.drop_first()) == items_after(
                    acc,
                    (cur - pos - 1) as nat,
                    spec_parse_items(b@.subrange(cur as int, b@.len() as int)),
                ),
            decreases len - cur,
        {
            let ghost rest = b@.subrange(cur as int, b@.len() as int);
            if cur >= len {
                return None;
            }
            if b[cur] == 101u8 {
                let result = Bencode::List(items);
                proof {
                    assert(rest[0] == 101u8);
                    assert(acc + Seq::<BencodeView>::empty() =~= acc);
                    assert(result@->List_0 =~= acc);
                }
                return Some((result, cur + 1));
            }
            match parse_value(b, cur) {
                Some((v, end)) => {
                    proof {
                        lemma_parse_len(rest);
                        let n = (end - cur) as nat;
                        assert(rest.subrange(n as int, rest.len() as int) =~= b@.subrange(end as int, b@.len() as int));
                        let tail = match spec_parse_items(b@.subrange(end as int, b@.len() as int)) {
                            Some((t, _)) => t,
                            None => Seq::empty(),
                        };
                        assert(acc.push(bview(&v)) + tail =~= acc + (seq![bview(&v)] + tail));
                    }
                    items.push(v);
                    proof {
                        acc = acc.push(bview(&items@[items@.len() - 1]));
                    }
                    cur = end;
                },
                None => {
                    return None;
                },
            }
        }
    } else if c == 100u8 {
        let mut entries: Vec<(Vec<u8>, Bencode)> = Vec::new();
        let ghost mut acc: Seq<(Seq<u8>, BencodeView)> = Seq::empty();
        let mut cur = pos + 1;
        assert(sub.drop_first() =~= b@.subrange(pos + 1, b@.len() as int));
        loop
            invariant
                len == b@.len(),
                pos + 1 <= cur <= len,
                sub == b@.subrange(pos as int, b@.len() as int),
                sub[0] == 100u8,
                acc.len() == entries@.len(),
                forall|j: int| 0 <= j < acc.len() ==> acc[j] == (entries@[j].0@, bview(&entries@[j].1)),
                spec_parse_entries(sub.drop_first()) == entries_after(
                    acc,
                    (cur - pos - 1) as nat,
                    spec_parse_entries(b@.subrange(cur as int, b@.len() as int)),
                ),
            decreases len - cur,
        {
            let ghost rest = b@.subrange(cur as int, b@.len() as int);
            if cur >= len {
                return None;
            }
            if b[cur] == 101u8 {
                let result = Bencode::Dict(entries);
                proof {
                    assert(rest[0] == 101u8);
                    assert(acc + Seq::<(Seq<u8>, BencodeView)>::empty() =~= acc);
                    assert(result@->Dict_0 =~= acc);
                }
                return Some((result, cur + 1));
            }
            let (key, key_end) = match parse_string(b, cur) {
                Some(found) => found,
                None => {
                    return None;
                },
            };
            let ghost kn = (key_end - cur) as nat;
            let ghost after_key = rest.subrange(kn as int, rest.len() as int);
            assert(after_key =~= b@.subrange(key_end as int, b@.len() as int));
            match parse_value(b, key_end) {
                Some((v, end)) => {
                    proof {
                        lemma_parse_len(after_key);
                        let vn = (end - key_end) as nat;
                        assert(after_key.subrange(vn as int, after_key.len() as int) =~= b@.subrange(end as int, b@.len() as int));
                        let tail = match spec_parse_entries(b@.subrange(end as int, b@.len() as int)) {
                            Some((t, _)) => t,
                            None => Seq::empty(),
                        };
                        assert(acc.push((key@, bview(&v))) + tail =~= acc + (seq![(key@, bview(&v))] + tail));
                    }
                    entries.push((key, v));
                    proof {
                        acc = acc.push((entries@[entries@.len() - 1].0@, bview(&entries@[entries@.len() - 1].1)));
                    }
                    cur = end;
                },
                None => {
                    return None;
                },
            }
        }
    } else {
        None
    }
}

/// Reads a whole buffer as one value, refusing anything left over.
pub fn from_bytes(b: &[u8]) -> (r: Option<Bencode>)
    ensures
        match spec_parse(b@) {
            Some((v, n)) => if n == b@.len() {
                r matches Some(x) && x@ == v
            } else {
                r is None
            },
            None => r is None,
        },
{
    assert(b@.subrange(0, b@.len() as int) =~= b@);
    match parse_value(b, 0) {
        Some((v, end)) => if end == b.len() {
            Some(v)
        } else {
            None
        },
        None => None,
    }
}

proof fn lemma_decimal(n: nat)
    ensures
        decimal(n).len() > 0,
        forall|j: int| 0 <= j < decimal(n).len() ==> is_digit(#[trigger] decimal(n)[j]),
        canonical(decimal(n)),
        n >= 1 ==> decimal(n)[0] != 48u8,
        digits_value(decimal(n)) == n,
    decreases n,
{
    if n >= 10 {
        lemma_decimal(n / 10);
        let d = decimal(n / 10);
        assert(decimal(n) == d.push((48 + n % 10) as u8));
        assert(decimal(n).drop_last() =~= d);
        assert(decimal(n)[0] == d[0]);
        assert(decimal(n).last() == (48 + n % 10) as u8);
        assert(digits_value(decimal(n)) == digits_value(d) * 10 + n % 10);
        assert((n / 10) * 10 + n % 10 == n);
    } else {
        assert(decimal(n).drop_last() =~= Seq::<u8>::empty());
        assert(digits_value(decimal(n)) == digits_value(Seq::<u8>::empty()) * 10 + n);
    }
}

proof fn lemma_canonical_decimal(s: Seq<u8>)
    requires
        canonical(s),
        forall|j: int| 0 <= j < s.len() ==> is_digit(s[j]),
    ensures
        decimal(digits_value(s)) == s,
    decreases s.len(),
{
    let d = s.drop_last();
    if s.len() == 1 {
        assert(d =~= Seq::<u8>::empty());
        assert(s.last() == s[0]);
        assert(digits_value(s) == digits_value(d) * 10 + (s[0] - 48) as nat);
        assert(digits_value(s) == (s[0] - 48) as nat);
        assert(decimal(digits_value(s)) == seq![s[0]]);
        assert(decimal(digits_value(s)) =~= s);
    } else {
        assert(canonical(d));
        lemma_canonical_decimal(d);
        assert(d.take(1) =~= seq![s[0]]);
        assert(seq![s[0]].drop_last() =~= Seq::<u8>::empty());
        lemma_digits_value_prefix(d, 1);
        let v = digits_value(s);
        assert(v / 10 == digits_value(d));
        assert(v % 10 == s.last() - 48);
        assert(decimal(v) =~= s);
    }
}

proof fn lemma_digit_run_of(d: Seq<u8>, t: Seq<u8>)
    requires
        forall|j: int| 0 <= j < d.len() ==> is_digit(d[j]),
        t.len() > 0 ==> !is_digit(t[0]),
    ensures
        digit_run(d + t) == d.len(),
{
    lemma_digit_run_exact(d + t, d.len() as int);
}

proof fn lemma_number_of(n: nat, t: u8, rest: Seq<u8>)
    requires
        !is_digit(t),
    ensures
        spec_number(decimal(n) + seq![t] + rest, t) == Some((n, decimal(n).len())),
{
    lemma_decimal(n);
    let d = decimal(n);
    let b = d + seq![t] + rest;
    assert(b =~= d + (seq![t] + rest));
    lemma_digit_run_of(d, seq![t] + rest);
    assert(b.take(d.len() as int) =~= d);
}

proof fn lemma_string_of(key: Seq<u8>, after: Seq<u8>)
    ensures
        spec_string(decimal(key.len()) + seq![58u8] + key + after) == Some(
            (key, (decimal(key.len()) + seq![58u8] + key).len()),
        ),
{
    let b = decimal(key.len()) + seq![58u8] + key + after;
    lemma_decimal(key.len());
    lemma_number_of(key.len(), 58u8, key + after);
    assert(b =~= decimal(key.len()) + seq![58u8] + (key + after));
    let k = decimal(key.len()).len();
    assert(b.subrange((k + 1) as int, (k + 1 + key.len()) as int) =~= key);
}

/// What a value is written as starts with its own tag byte, never a list's
/// closing `e`.
proof fn lemma_encode_first(v: BencodeView)
    ensures
        spec_encode(v).len() > 0,
        spec_encode(v)[0] != 101u8,
{
    match v {
        BencodeView::Bytes(s) => {
            lemma_decimal(s.len());
        },
        _ => {},
    }
}

proof fn lemma_integer_roundtrip(i: int, rest: Seq<u8>)
    requires
        i64::MIN <= i <= i64::MAX,
    ensures
        spec_parse(spec_encode(BencodeView::Integer(i)) + rest) == Some(
            (BencodeView::Integer(i), spec_encode(BencodeView::Integer(i)).len()),
        ),
{
    let b = spec_encode(BencodeView::Integer(i)) + rest;
    if i < 0 {
        let m = (-i) as nat;
        lemma_number_of(m, 101u8, rest);
        assert(b.drop_first().drop_first() =~= decimal(m) + seq![101u8] + rest);
        assert(b.drop_first()[0] == 45u8);
    } else {
        let m = i as nat;
        lemma_number_of(m, 101u8, rest);
        lemma_decimal(m);
        assert(b.drop_first() =~= decimal(m) + seq![101u8] + rest);
    }
}

proof fn lemma_bytes_roundtrip(s: Seq<u8>, rest: Seq<u8>)
    ensures
        spec_parse(spec_encode(BencodeView::Bytes(s)) + rest) == Some(
            (BencodeView::Bytes(s), spec_encode(BencodeView::Bytes(s)).len()),
        ),
{
    let b = spec_encode(BencodeView::Bytes(s)) + rest;
    lemma_string_of(s, rest);
    lemma_decimal(s.len());
    assert(b =~= decimal(s.len()) + seq![58u8] + s + rest);
}

/// Writing a value and reading it back gives the value, whatever follows
/// it, and takes exactly the bytes written.
#[verifier::spinoff_prover]
#[verifier::rlimit(40)]
pub proof fn law_encode_parse_roundtrip(v: BencodeView, rest: Seq<u8>)
    requires
        wf_value(v),
    ensures
        spec_parse(spec_encode(v) + rest) == Some((v, spec_encode(v).len())),
    decreases v, 0int,
{
    let b = spec_encode(v) + rest;
    match v {
        BencodeView::Integer(i) => {
            lemma_integer_roundtrip(i, rest);
        },
        BencodeView::Bytes(s) => {
            lemma_bytes_roundtrip(s, rest);
        },
        BencodeView::List(items) => {
            lemma_items_roundtrip(items, seq![101u8] + rest);
            assert(b.drop_first() =~= spec_encode_items(items) + (seq![101u8] + rest));
        },
        BencodeView::Dict(entries) => {
            lemma_entries_roundtrip(entries, seq![101u8] + rest);
            assert(b.drop_first() =~= spec_encode_entries(entries) + (seq![101u8] + rest));
        },
    }
}

#[verifier::spinoff_prover]
#[verifier::rlimit(40)]
proof fn lemma_items_roundtrip(items: Seq<BencodeView>, rest: Seq<u8>)
    requires
        forall|i: int| 0 <= i < items.len() ==> wf_value(#[trigger] items[i]),
        rest.len() > 0 && rest[0] == 101u8,
    ensures
        spec_parse_items(spec_encode_items(items) + rest) == Some((items, spec_encode_items(items).len() + 1)),
    decreases items, 1int,
{
    let b = spec_encode_items(items) + rest;
    if items.len() == 0 {
        assert(b =~= rest);
        assert(items =~= Seq::<BencodeView>::empty());
    } else {
        let first = items[0];
        let tail = items.drop_first();
        let e = spec_encode(first);
        lemma_encode_first(first);
        assert(b =~= e + (spec_encode_items(tail) + rest));
        law_encode_parse_roundtrip(first, spec_encode_items(tail) + rest);
        assert forall|i: int| 0 <= i < tail.len() implies wf_value(#[trigger] tail[i]) by {
            assert(tail[i] == items[i + 1]);
        }
        lemma_items_roundtrip(tail, rest);
        assert(b.subrange(e.len() as int, b.len() as int) =~= spec_encode_items(tail) + rest);
        assert(seq![first] + tail =~= items);
    }
}

#[verifier::spinoff_prover]
#[verifier::rlimit(40)]
proof fn lemma_entries_roundtrip(entries: Seq<(Seq<u8>, BencodeView)>, rest: Seq<u8>)
    requires
        forall|i: int| 0 <= i < entries.len() ==> wf_value(#[trigger] entries[i].1),
        rest.len() > 0 && rest[0] == 101u8,
    ensures
        spec_parse_entries(spec_encode_entries(entries) + rest) == Some((entries, spec_encode_entries(entries).len() + 1)),
    decreases entries, 1int,
{
    let b = spec_encode_entries(entries) + rest;
    if entries.len() == 0 {
        assert(b =~= rest);
        assert(entries =~= Seq::<(Seq<u8>, BencodeView)>::empty());
    } else {
        let (key, value) = entries[0];
        let tail = entries.drop_first();
        let kb = decimal(key.len()) + seq![58u8] + key;
        let e = spec_encode(value);
        let after = e + (spec_encode_entries(tail) + rest);
        assert(b =~= kb + after);
        lemma_string_of(key, after);
        lemma_decimal(key.len());
        assert(b.subrange(kb.len() as int, b.len() as int) =~= after);
        assert(decreases_to!(entries => entries[0]));
        law_encode_parse_roundtrip(value, spec_encode_entries(tail) + rest);
        assert forall|i: int| 0 <= i < tail.len() implies wf_value(#[trigger] tail[i].1) by {
            assert(tail[i] == entries[i + 1]);
        }
        lemma_entries_roundtrip(tail, rest);
        assert(after.subrange(e.len() as int, after.len() as int) =~= spec_encode_entries(tail) + rest);
        assert(seq![(key, value)] + tail =~= entries);
    }
}

proof fn lemma_number_encodes(b: Seq<u8>, t: u8)
    requires
        spec_number(b, t) is Some,
    ensures
        ({
            let (v, k) = spec_number(b, t)->0;
            decimal(v) == b.take(k as int) && b[k as int] == t && k < b.len()
        }),
{
    let k = digit_run(b);
    lemma_digit_run_at_least(b, 0);
    assert forall|j: int| 0 <= j < b.take(k as int).len() implies is_digit(b.take(k as int)[j]) by {}
    lemma_canonical_decimal(b.take(k as int));
}

/// Reading a value and writing it back gives exactly the bytes read: the
/// grammar admits one way of writing each value. The value read is also one
/// that can be written.
#[verifier::spinoff_prover]
#[verifier::rlimit(40)]
pub proof fn law_parse_encode_roundtrip(b: Seq<u8>)
    requires
        spec_parse(b) is Some,
    ensures
        spec_encode((spec_parse(b)->0).0) == b.take((spec_parse(b)->0).1 as int),
        wf_value((spec_parse(b)->0).0),
    decreases b.len(), 0int,
{
    let (v, n) = spec_parse(b)->0;
    if b[0] == 105u8 {
        let body = b.drop_first();
        if body.len() > 0 && body[0] == 45u8 {
            let digits = body.drop_first();
            lemma_number_encodes(digits, 101u8);
            let (m, k) = spec_number(digits, 101u8)->0;
            assert(b.take(n as int) =~= seq![105u8, 45u8] + digits.take(k as int) + seq![101u8]);
        } else {
            lemma_number_encodes(body, 101u8);
            let (m, k) = spec_number(body, 101u8)->0;
            assert(b.take(n as int) =~= seq![105u8] + body.take(k as int) + seq![101u8]);
        }
    } else if is_digit(b[0]) {
        lemma_number_encodes(b, 58u8);
        let (len, k) = spec_number(b, 58u8)->0;
        assert(b.take(n as int) =~= b.take(k as int) + seq![58u8] + b.subrange((k + 1) as int, n as int));
    } else if b[0] == 108u8 {
        lemma_items_encode(b.drop_first());
        let (items, m) = spec_parse_items(b.drop_first())->0;
        lemma_parse_items_len(b.drop_first());
        assert(b.take(n as int) =~= seq![108u8] + b.drop_first().take(m as int));
    } else {
        lemma_entries_encode(b.drop_first());
        let (entries, m) = spec_parse_entries(b.drop_first())->0;
        lemma_parse_entries_len(b.drop_first());
        assert(b.take(n as int) =~= seq![100u8] + b.drop_first().take(m as int));
    }
}

#[verifier::spinoff_prover]
#[verifier::rlimit(40)]
proof fn lemma_items_encode(b: Seq<u8>)
    requires
        spec_parse_items(b) is Some,
    ensures
        spec_encode_items((spec_parse_items(b)->0).0) + seq![101u8] == b.take((spec_parse_items(b)->0).1 as int),
        forall|i: int|
            0 <= i < (spec_parse_items(b)->0).0.len() ==> wf_value(#[trigger] (spec_parse_items(b)->0).0[i]),
    decreases b.len(), 1int,
{
    let (items, n) = spec_parse_items(b)->0;
    if b[0] == 101u8 {
        assert(b.take(1) =~= seq![101u8]);
        assert(spec_encode_items(items) =~= Seq::<u8>::empty());
    } else {
        let (v, vn) = spec_parse(b)->0;
        let tail = b.subrange(vn as int, b.len() as int);
        law_parse_encode_roundtrip(b);
        lemma_items_encode(tail);
        let (rest, m) = spec_parse_items(tail)->0;
        assert((seq![v] + rest).drop_first() =~= rest);
        assert((seq![v] + rest)[0] == v);
        lemma_parse_len(b);
        lemma_parse_items_len(tail);
        assert(b.take(n as int) =~= b.take(vn as int) + tail.take(m as int));
        assert(spec_encode_items(items) + seq![101u8] =~= spec_encode(v) + (spec_encode_items(rest) + seq![101u8]));
        assert forall|i: int| 0 <= i < items.len() implies wf_value(#[trigger] items[i]) by {
            if i > 0 {
                assert(items[i] == rest[i - 1]);
            }
        }
    }
}

#[verifier::spinoff_prover]
#[verifier::rlimit(40)]
proof fn lemma_entries_encode(b: Seq<u8>)
    requires
        spec_parse_entries(b) is Some,
    ensures
        spec_encode_entries((spec_parse_entries(b)->0).0) + seq![101u8] == b.take((spec_parse_entries(b)->0).1 as int),
        forall|i: int|
            0 <= i < (spec_parse_entries(b)->0).0.len() ==> wf_value(#[trigger] (spec_parse_entries(b)->0).0[i].1),
    decreases b.len(), 1int,
{
    let (entries, n) = spec_parse_entries(b)->0;
    if b[0] == 101u8 {
        assert(b.take(1) =~= seq![101u8]);
        assert(spec_encode_entries(entries) =~= Seq::<u8>::empty());
    } else {
        let (key, kn) = spec_string(b)->0;
        let after_key = b.subrange(kn as int, b.len() as int);
        let (v, vn) = spec_parse(after_key)->0;
        let tail = after_key.subrange(vn as int, after_key.len() as int);
        lemma_number_encodes(b, 58u8);
        let (len, k) = spec_number(b, 58u8)->0;
        law_parse_encode_roundtrip(after_key);
        lemma_entries_encode(tail);
        let (rest, m) = spec_parse_entries(tail)->0;
        assert((seq![(key, v)] + rest).drop_first() =~= rest);
        assert((seq![(key, v)] + rest)[0] == (key, v));
        assert(b.take(kn as int) =~= b.take(k as int) + seq![58u8] + key);
        lemma_parse_len(after_key);
        lemma_parse_entries_len(tail);
        assert(b.take(n as int) =~= b.take(kn as int) + after_key.take(vn as int) + tail.take(m as int));
        assert(spec_encode_entries(entries) + seq![101u8] =~= (decimal(key.len()) + seq![58u8] + key + spec_encode(v))
            + (spec_encode_entries(rest) + seq![101u8]));
        assert forall|i: int| 0 <= i < entries.len() implies wf_value(#[trigger] entries[i].1) by {
            if i > 0 {
                assert(entries[i] == rest[i - 1]);
            }
        }
    }
}

/// Why a value could not be written or read.
#[derive(Clone, Copy, Debug, PartialEq, Eq, Structural)]
pub enum BencodeError {
    /// An integer outside what bencode here carries, an `i64`.
    IntegerOutOfRange,
    /// The bytes are not one bencoded value.
    Malformed,
}

/// Writes bencoded values into a buffer.
pub struct BencodeSerializer {
    output: Vec<u8>,
}

impl View for BencodeSerializer {
    type V = Seq<u8>;

    closed spec fn view(&self) -> Seq<u8> {
        self.output@
    }
}

impl BencodeSerializer {
    pub fn new() -> (s: BencodeSerializer)
        ensures
            s@ == Seq::<u8>::empty(),
    {
        BencodeSerializer { output: Vec::new() }
    }

    /// Appends the bytes `value` is written as.
    pub fn serialize(&mut self, value: &Bencode)
        ensures
            final(self)@ == old(self)@ + spec_encode(value@),
    {
        encode_into(value, &mut self.output);
    }

    /// Everything written so far.
    pub fn into_bytes(self) -> (r: Vec<u8>)
        ensures
            r@ == self@,
    {
        self.output
    }
}

/// Values that have a bencoded form.
pub trait ToBencode {
    /// The value this is written as, if it can be.
    spec fn spec_bencode(&self) -> Option<BencodeView>;

    fn to_bencode(&self) -> (r: Option<Bencode>)
        ensures
            match self.spec_bencode() {
                Some(v) => r matches Some(x) && x@ == v,
                None => r is None,
            },
    ;
}

impl ToBencode for i64 {
    open spec fn spec_bencode(&self) -> Option<BencodeView> {
        Some(BencodeView::Integer(*self as int))
    }

    fn to_bencode(&self) -> (r: Option<Bencode>) {
        Some(Bencode::Integer(*self))
    }
}

impl ToBencode for i32 {
    open spec fn spec_bencode(&self) -> Option<BencodeView> {
        Some(BencodeView::Integer(*self as int))
    }

    fn to_bencode(&self) -> (r: Option<Bencode>) {
        Some(Bencode::Integer(*self as i64))
    }
}

impl ToBencode for u32 {
    open spec fn spec_bencode(&self) -> Option<BencodeView> {
        Some(BencodeView::Integer(*self as int))
    }

    fn to_bencode(&self) -> (r: Option<Bencode>) {
        Some(Bencode::Integer(*self as i64))
    }
}

impl ToBencode for u64 {
    /// Only up to the largest `i64`.
    open spec fn spec_bencode(&self) -> Option<BencodeView> {
        if *self <= i64::MAX {
            Some(BencodeView::Integer(*self as int))
        } else {
            None
        }
    }

    fn to_bencode(&self) -> (r: Option<Bencode>) {
        if *self <= i64::MAX as u64 {
            Some(Bencode::Integer(*self as i64))
        } else {
            None
        }
    }
}

impl<'a> ToBencode for &'a str {
    /// The UTF-8 bytes of the text.
    open spec fn spec_bencode(&self) -> Option<BencodeView> {
        Some(BencodeView::Bytes(encode_utf8(self@)))
    }

    fn to_bencode(&self) -> (r: Option<Bencode>) {
        let bytes = self.as_bytes();
        let copied = crate::wire_protocol::copy_range(bytes, 0, bytes.len());
        assert(copied@ =~= encode_utf8(self@));
        Some(Bencode::Bytes(copied))
    }
}

impl ToBencode for String {
    open spec fn spec_bencode(&self) -> Option<BencodeView> {
        Some(BencodeView::Bytes(encode_utf8(self@)))
    }

    fn to_bencode(&self) -> (r: Option<Bencode>) {
        let bytes = self.as_str().as_bytes();
        let copied = crate::wire_protocol::copy_range(bytes, 0, bytes.len());
        assert(copied@ =~= encode_utf8(self@));
        Some(Bencode::Bytes(copied))
    }
}

impl<A: ToBencode, B: ToBencode> ToBencode for (A, B) {
    /// A two-item list.
    open spec fn spec_bencode(&self) -> Option<BencodeView> {
        match (self.0.spec_bencode(), self.1.spec_bencode()) {
            (Some(a), Some(b)) => Some(BencodeView::List(seq![a, b])),
            _ => None,
        }
    }

    fn to_bencode(&self) -> (r: Option<Bencode>) {
        match (self.0.to_bencode(), self.1.to_bencode()) {
            (Some(a), Some(b)) => {
                let mut items: Vec<Bencode> = Vec::new();
                items.push(a);
                items.push(b);
                let r = Bencode::List(items);
                assert(r@->List_0 =~= seq![(self.0.spec_bencode())->0, (self.1.spec_bencode())->0]);
                Some(r)
            },
            _ => None,
        }
    }
}

impl<T: ToBencode> ToBencode for Vec<T> {
    /// A list, when every item can be written.
    open spec fn spec_bencode(&self) -> Option<BencodeView> {
        if forall|i: int| 0 <= i < self@.len() ==> (#[trigger] self@[i].spec_bencode()) is Some {
            Some(BencodeView::List(Seq::new(self@.len(), |i: int| (self@[i].spec_bencode())->0)))
        } else {
            None
        }
    }

    fn to_bencode(&self) -> (r: Option<Bencode>) {
        let mut items: Vec<Bencode> = Vec::new();
        let mut k: usize = 0;
        while k < self.len()
            invariant
                k <= self@.len(),
                items@.len() == k,
                forall|j: int| 0 <= j < k ==> (#[trigger] self@[j].spec_bencode()) is Some,
                forall|j: int| 0 <= j < k ==> bview(&items@[j]) == (self@[j].spec_bencode())->0,
            decreases self@.len() - k,
        {
            match self[k].to_bencode() {
                Some(v) => {
                    items.push(v);
                },
                None => {
                    return None;
                },
            }
            k = k + 1;
        }
        let r = Bencode::List(items);
        assert(r@->List_0 =~= Seq::new(self@.len(), |i: int| (self@[i].spec_bencode())->0));
        Some(r)
    }
}

/// The bytes `value` is written as, or why it cannot be.
pub fn to_bytes<T: ToBencode>(value: &T) -> (r: Result<Vec<u8>, BencodeError>)
    ensures
        match value.spec_bencode() {
            Some(v) => r matches Ok(bytes) && bytes@ == spec_encode(v),
            None => r == Err::<Vec<u8>, BencodeError>(BencodeError::IntegerOutOfRange),
        },
{
    match value.to_bencode() {
        Some(v) => {
            let mut serializer = BencodeSerializer::new();
            serializer.serialize(&v);
            let bytes = serializer.into_bytes();
            assert(bytes@ =~= spec_encode(v@));
            Ok(bytes)
        },
        None => Err(BencodeError::IntegerOutOfRange),
    }
}

/// A value read together with the exact bytes it came from. Needed where the
/// original encoding matters, such as hashing a torrent's `info` dictionary.
#[derive(Debug)]
pub struct Raw {
    pub value: Bencode,
    pub bytes: Vec<u8>,
}

impl Raw {
    /// Pairs a value read with its bytes. The grammar admits one way of
    /// writing each value, so writing it again gives exactly the bytes it was
    /// read from.
    pub fn of(value: Bencode) -> (r: Raw)
        ensures
            r.value@ == value@,
            r.bytes@ == spec_encode(value@),
    {
        let bytes = encode(&value);
        Raw { value, bytes }
    }
}

/// The value of the first entry named `key`, if any.
pub open spec fn spec_lookup(entries: Seq<(Seq<u8>, BencodeView)>, key: Seq<u8>) -> Option<BencodeView>
    decreases entries.len(),
{
    if entries.len() == 0 {
        None
    } else if entries[0].0 == key {
        Some(entries[0].1)
    } else {
        spec_lookup(entries.drop_first(), key)
    }
}

/// The entries of a dictionary, as plain values.
pub open spec fn entries_view(entries: Seq<(Vec<u8>, Bencode)>) -> Seq<(Seq<u8>, BencodeView)> {
    Seq::new(entries.len(), |i: int| (entries[i].0@, bview(&entries[i].1)))
}

/// The value of the first entry named `key`.
pub fn dict_get<'a>(entries: &'a Vec<(Vec<u8>, Bencode)>, key: &[u8]) -> (r: Option<&'a Bencode>)
    ensures
        match spec_lookup(entries_view(entries@), key@) {
            Some(v) => r matches Some(x) && x@ == v,
            None => r is None,
        },
{
    let ghost all = entries_view(entries@);
    assert(all.subrange(0, all.len() as int) =~= all);
    let mut k: usize = 0;
    while k < entries.len()
        invariant
            k <= entries@.len(),
            all == entries_view(entries@),
            spec_lookup(all, key@) == spec_lookup(all.subrange(k as int, all.len() as int), key@),
        decreases entries@.len() - k,
    {
        let ghost rest = all.subrange(k as int, all.len() as int);
        assert(rest.drop_first() =~= all.subrange(k + 1, all.len() as int));
        if bytes_eq(entries[k].0.as_slice(), key) {
            return Some(&entries[k].1);
        }
        k = k + 1;
    }
    None
}

/// Whether two byte strings are equal.
pub fn bytes_eq(a: &[u8], b: &[u8]) -> (r: bool)
    ensures
        r == (a@ == b@),
{
    if a.len() != b.len() {
        return false;
    }
    let mut k: usize = 0;
    while k < a.len()
        invariant
            k <= a@.len(),
            a@.len() == b@.len(),
            forall|j: int| 0 <= j < k ==> a@[j] == b@[j],
        decreases a@.len() - k,
    {
        if a[k] != b[k] {
            return false;
        }
        k = k + 1;
    }
    assert(a@ =~= b@);
    true
}

/// Every integer is written as its own value: what `to_bytes` writes for an
/// `i64`, `i32` or `u32`, or a `u64` up to the largest `i64`, reads back as
/// that very number, and the same number is written the same way whatever
/// its type. A `u64` past the largest `i64` cannot be written at all.
pub proof fn law_integers_are_written_as_themselves(x: i64, y: i32, z: u32, w: u64)
    ensures
        x.spec_bencode() is Some,
        spec_parse(spec_encode(x.spec_bencode()->0)) == Some(
            (BencodeView::Integer(x as int), spec_encode(x.spec_bencode()->0).len()),
        ),
        y.spec_bencode() is Some,
        spec_parse(spec_encode(y.spec_bencode()->0)) == Some(
            (BencodeView::Integer(y as int), spec_encode(y.spec_bencode()->0).len()),
        ),
        z.spec_bencode() is Some,
        spec_parse(spec_encode(z.spec_bencode()->0)) == Some(
            (BencodeView::Integer(z as int), spec_encode(z.spec_bencode()->0).len()),
        ),
        w <= i64::MAX ==> w.spec_bencode() is Some && spec_parse(spec_encode(w.spec_bencode()->0)) == Some(
            (BencodeView::Integer(w as int), spec_encode(w.spec_bencode()->0).len()),
        ),
        w > i64::MAX ==> w.spec_bencode() is None,
        x as int == y as int ==> x.spec_bencode() == y.spec_bencode(),
        x as int == z as int ==> x.spec_bencode() == z.spec_bencode(),
        x as int == w as int ==> x.spec_bencode() == w.spec_bencode(),
{
    let empty = Seq::<u8>::empty();
    let vx = x.spec_bencode()->0;
    law_encode_parse_roundtrip(vx, empty);
    assert(spec_encode(vx) + empty =~= spec_encode(vx));
    let vy = y.spec_bencode()->0;
    law_encode_parse_roundtrip(vy, empty);
    assert(spec_encode(vy) + empty =~= spec_encode(vy));
    let vz = z.spec_bencode()->0;
    law_encode_parse_roundtrip(vz, empty);
    assert(spec_encode(vz) + empty =~= spec_encode(vz));
    if w <= i64::MAX {
        let vw = w.spec_bencode()->0;
        law_encode_parse_roundtrip(vw, empty);
        assert(spec_encode(vw) + empty =~= spec_encode(vw));
    }
}

} // verus!
