//! The label map: routing patches into label-named subdirectories.
//!
//! The map is built once from the bytes of a plain-text file holding one
//! `key value` pair per line, keys and values separated by whitespace, and
//! is read-only afterwards. A later line with the same key overrides an
//! earlier one, as repeated inserts into a map would; a line without two
//! tokens contributes nothing. Keys and values are byte strings, so the
//! contract pins the parse down byte by byte.

use vstd::prelude::*;

verus! {

/// Horizontal whitespace: everything `split_whitespace` breaks on except
/// the line feed, which ends a line instead.
pub open spec fn is_ws(b: u8) -> bool {
    b == 9 || b == 11 || b == 12 || b == 13 || b == 32
}

/// Index of the first line feed of `s`, or `s.len()` if there is none.
pub open spec fn first_nl(s: Seq<u8>) -> nat
    decreases s.len(),
{
    if s.len() == 0 {
        0
    } else if s[0] == 10 {
        0
    } else {
        1 + first_nl(s.drop_first())
    }
}

/// Index of the first byte of `s` that is not horizontal whitespace, or
/// `s.len()` if all of it is.
pub open spec fn first_non_ws(s: Seq<u8>) -> nat
    decreases s.len(),
{
    if s.len() == 0 {
        0
    } else if !is_ws(s[0]) {
        0
    } else {
        1 + first_non_ws(s.drop_first())
    }
}

/// Index of the first horizontal-whitespace byte of `s`, or `s.len()` if
/// there is none.
pub open spec fn first_break(s: Seq<u8>) -> nat
    decreases s.len(),
{
    if s.len() == 0 {
        0
    } else if is_ws(s[0]) {
        0
    } else {
        1 + first_break(s.drop_first())
    }
}

/// The key and value of one line: its first two whitespace-separated
/// tokens, or nothing if the line holds fewer than two.
pub open spec fn line_entry_spec(line: Seq<u8>) -> Option<(Seq<u8>, Seq<u8>)> {
    let a0 = first_non_ws(line) as int;
    let a1 = a0 + first_break(line.skip(a0));
    let b0 = a1 + first_non_ws(line.skip(a1));
    let b1 = b0 + first_break(line.skip(b0));
    if a0 < line.len() && b0 < line.len() {
        Some((line.subrange(a0, a1), line.subrange(b0, b1)))
    } else {
        None
    }
}

/// The entries of one parsed line as a (possibly empty) sequence.
pub open spec fn entry_seq(o: Option<(Seq<u8>, Seq<u8>)>) -> Seq<(Seq<u8>, Seq<u8>)> {
    match o {
        Some(e) => seq![e],
        None => Seq::empty(),
    }
}

/// All key/value entries of the label file's bytes, line by line.
pub open spec fn label_entries(s: Seq<u8>) -> Seq<(Seq<u8>, Seq<u8>)>
    decreases s.len(),
{
    if s.len() == 0 {
        Seq::empty()
    } else {
        let i = first_nl(s) as int;
        if i >= s.len() {
            entry_seq(line_entry_spec(s))
        } else {
            entry_seq(line_entry_spec(s.subrange(0, i))) + label_entries(
                s.subrange(i + 1, s.len() as int),
            )
        }
    }
}

/// The map the entries build up, later entries overriding earlier ones.
pub open spec fn map_of(entries: Seq<(Seq<u8>, Seq<u8>)>) -> Map<Seq<u8>, Seq<u8>>
    decreases entries.len(),
{
    if entries.len() == 0 {
        Map::empty()
    } else {
        map_of(entries.drop_last()).insert(entries.last().0, entries.last().1)
    }
}

/// The entries of a vector of byte-string pairs, as sequences.
pub open spec fn pairs_view(s: Seq<(Vec<u8>, Vec<u8>)>) -> Seq<(Seq<u8>, Seq<u8>)> {
    Seq::new(s.len(), |i: int| (s[i].0@, s[i].1@))
}

proof fn lemma_first_nl_char(s: Seq<u8>)
    ensures
        0 <= first_nl(s) <= s.len(),
        forall|j: int| 0 <= j < first_nl(s) ==> s[j] != 10,
        first_nl(s) < s.len() ==> s[first_nl(s) as int] == 10,
    decreases s.len(),
{
    if s.len() > 0 && s[0] != 10 {
        lemma_first_nl_char(s.drop_first());
        assert forall|j: int| 0 <= j < first_nl(s) implies s[j] != 10 by {
            if j >= 1 {
                assert(s.drop_first()[j - 1] == s[j]);
            }
        }
        if first_nl(s) < s.len() {
            assert(s.drop_first()[first_nl(s) as int - 1] == s[first_nl(s) as int]);
        }
    }
}

proof fn lemma_first_non_ws_char(s: Seq<u8>)
    ensures
        0 <= first_non_ws(s) <= s.len(),
        forall|j: int| 0 <= j < first_non_ws(s) ==> is_ws(s[j]),
        first_non_ws(s) < s.len() ==> !is_ws(s[first_non_ws(s) as int]),
    decreases s.len(),
{
    if s.len() > 0 && is_ws(s[0]) {
        lemma_first_non_ws_char(s.drop_first());
        assert forall|j: int| 0 <= j < first_non_ws(s) implies is_ws(s[j]) by {
            if j >= 1 {
                assert(s.drop_first()[j - 1] == s[j]);
            }
        }
        if first_non_ws(s) < s.len() {
            assert(s.drop_first()[first_non_ws(s) as int - 1] == s[first_non_ws(s) as int]);
        }
    }
}

proof fn lemma_first_break_char(s: Seq<u8>)
    ensures
        0 <= first_break(s) <= s.len(),
        forall|j: int| 0 <= j < first_break(s) ==> !is_ws(s[j]),
        first_break(s) < s.len() ==> is_ws(s[first_break(s) as int]),
    decreases s.len(),
{
    if s.len() > 0 && !is_ws(s[0]) {
        lemma_first_break_char(s.drop_first());
        assert forall|j: int| 0 <= j < first_break(s) implies !is_ws(s[j]) by {
            if j >= 1 {
                assert(s.drop_first()[j - 1] == s[j]);
            }
        }
        if first_break(s) < s.len() {
            assert(s.drop_first()[first_break(s) as int - 1] == s[first_break(s) as int]);
        }
    }
}

/// Runtime check for horizontal whitespace.
fn is_ws_byte(b: u8) -> (r: bool)
    ensures
        r == is_ws(b),
{
    b == 9 || b == 11 || b == 12 || b == 13 || b == 32
}

/// Byte-for-byte equality of two byte strings.
pub fn bytes_eq(a: &Vec<u8>, b: &Vec<u8>) -> (r: bool)
    ensures
        r <==> a@ == b@,
{
    if a.len() != b.len() {
        proof {
            assert(a@ != b@) by {
                if a@ == b@ {
                    assert(a@.len() == b@.len());
                }
            }
        }
        return false;
    }
    let mut i: usize = 0;
    while i < a.len()
        invariant
            a@.len() == b@.len(),
            i <= a@.len(),
            forall|j: int| 0 <= j < i ==> a@[j] == b@[j],
        decreases a@.len() - i,
    {
        if a[i] != b[i] {
            return false;
        }
        i = i + 1;
    }
    proof {
        assert(a@ =~= b@);
    }
    true
}

/// A copy of `content[from..to)`.
fn copy_range(content: &Vec<u8>, from: usize, to: usize) -> (r: Vec<u8>)
    requires
        from <= to <= content@.len(),
    ensures
        r@ == content@.subrange(from as int, to as int),
{
    let mut out: Vec<u8> = Vec::new();
    let mut i: usize = from;
    while i < to
        invariant
            from <= i <= to <= content@.len(),
            out@ == content@.subrange(from as int, i as int),
        decreases to - i,
    {
        out.push(content[i]);
        proof {
            assert(out@ =~= content@.subrange(from as int, i as int + 1));
        }
        i = i + 1;
    }
    out
}

/// Scan forward from `from` (up to `to`) to the first line feed.
fn find_nl(content: &Vec<u8>, from: usize, to: usize) -> (r: usize)
    requires
        from <= to <= content@.len(),
    ensures
        from <= r <= to,
        r - from == first_nl(content@.subrange(from as int, to as int)),
        r < to ==> content@[r as int] == 10,
{
    let ghost s = content@.subrange(from as int, to as int);
    proof {
        lemma_first_nl_char(s);
    }
    let mut i: usize = from;
    while i < to && content[i] != 10
        invariant
            from <= i <= to <= content@.len(),
            forall|j: int| from <= j < i ==> content@[j] != 10,
        decreases to - i,
    {
        i = i + 1;
    }
    proof {
        let e = i - from;
        if e < first_nl(s) {
            assert(s[e] == content@[i as int]);
        }
        if first_nl(s) < e {
            assert(s[first_nl(s) as int] == content@[first_nl(s) + from]);
        }
    }
    i
}

/// Scan forward from `from` (up to `to`) to the first byte that is not
/// horizontal whitespace.
fn find_non_ws(content: &Vec<u8>, from: usize, to: usize) -> (r: usize)
    requires
        from <= to <= content@.len(),
    ensures
        from <= r <= to,
        r - from == first_non_ws(content@.subrange(from as int, to as int)),
{
    let ghost s = content@.subrange(from as int, to as int);
    proof {
        lemma_first_non_ws_char(s);
    }
    let mut i: usize = from;
    while i < to && is_ws_byte(content[i])
        invariant
            from <= i <= to <= content@.len(),
            forall|j: int| from <= j < i ==> is_ws(content@[j]),
        decreases to - i,
    {
        i = i + 1;
    }
    proof {
        let e = i - from;
        if e < first_non_ws(s) {
            assert(s[e] == content@[i as int]);
        }
        if first_non_ws(s) < e {
            assert(s[first_non_ws(s) as int] == content@[first_non_ws(s) + from]);
        }
    }
    i
}

/// Scan forward from `from` (up to `to`) to the first horizontal
/// whitespace byte.
fn find_break(content: &Vec<u8>, from: usize, to: usize) -> (r: usize)
    requires
        from <= to <= content@.len(),
    ensures
        from <= r <= to,
        r - from == first_break(content@.subrange(from as int, to as int)),
{
    let ghost s = content@.subrange(from as int, to as int);
    proof {
        lemma_first_break_char(s);
    }
    let mut i: usize = from;
    while i < to && !is_ws_byte(content[i])
        invariant
            from <= i <= to <= content@.len(),
            forall|j: int| from <= j < i ==> !is_ws(content@[j]),
        decreases to - i,
    {
        i = i + 1;
    }
    proof {
        let e = i - from;
        if e < first_break(s) {
            assert(s[e] == content@[i as int]);
        }
        if first_break(s) < e {
            assert(s[first_break(s) as int] == content@[first_break(s) + from]);
        }
    }
    i
}

/// Parse one line, `content[start..end)`, and push its entry, if any.
fn push_line_entry(content: &Vec<u8>, start: usize, end: usize, out: &mut Vec<(Vec<u8>, Vec<u8>)>)
    requires
        start <= end <= content@.len(),
    ensures
        pairs_view(final(out)@) == pairs_view(old(out)@) + entry_seq(
            line_entry_spec(content@.subrange(start as int, end as int)),
        ),
{
    let ghost line = content@.subrange(start as int, end as int);
    let a0 = find_non_ws(content, start, end);
    let a1 = find_break(content, a0, end);
    let b0 = find_non_ws(content, a1, end);
    let b1 = find_break(content, b0, end);
    proof {
        assert(content@.subrange(a0 as int, end as int) =~= line.skip(a0 - start));
        assert(content@.subrange(a1 as int, end as int) =~= line.skip(a1 - start));
        assert(content@.subrange(b0 as int, end as int) =~= line.skip(b0 - start));
    }
    if a0 < end && b0 < end {
        let key = copy_range(content, a0, a1);
        let val = copy_range(content, b0, b1);
        proof {
            assert(key@ =~= line.subrange(a0 - start, a1 - start));
            assert(val@ =~= line.subrange(b0 - start, b1 - start));
        }
        out.push((key, val));
        proof {
            assert(pairs_view(out@) =~= pairs_view(old(out)@) + entry_seq(
                line_entry_spec(line),
            ));
        }
    } else {
        proof {
            assert(pairs_view(out@) =~= pairs_view(old(out)@) + entry_seq(
                line_entry_spec(line),
            ));
        }
    }
}

/// Parse every line of `content[pos..)` and push the entries in order.
fn parse_entries(content: &Vec<u8>, pos: usize, out: &mut Vec<(Vec<u8>, Vec<u8>)>)
    requires
        pos <= content@.len(),
    ensures
        pairs_view(final(out)@) == pairs_view(old(out)@) + label_entries(
            content@.skip(pos as int),
        ),
    decreases content@.len() - pos,
{
    let ghost rest = content@.skip(pos as int);
    if pos == content.len() {
        proof {
            assert(pairs_view(out@) =~= pairs_view(out@) + label_entries(rest));
        }
        return ;
    }
    let end = content.len();
    let nl = find_nl(content, pos, end);
    proof {
        assert(content@.subrange(pos as int, end as int) =~= rest);
        lemma_first_nl_char(rest);
    }
    if nl == end {
        push_line_entry(content, pos, end, out);
        proof {
            assert(content@.subrange(pos as int, end as int) =~= rest);
            assert(pairs_view(out@) =~= pairs_view(old(out)@) + label_entries(rest));
        }
    } else {
        push_line_entry(content, pos, nl, out);
        parse_entries(content, nl + 1, out);
        proof {
            let i = first_nl(rest) as int;
            assert(content@.subrange(pos as int, nl as int) =~= rest.subrange(0, i));
            assert(content@.skip(nl as int + 1) =~= rest.subrange(i + 1, rest.len() as int));
            assert(pairs_view(out@) =~= pairs_view(old(out)@) + label_entries(rest));
        }
    }
}

/// When no entry of `entries` has key `k`, the map has no such key; when
/// some does, the map holds the value of the last such entry.
proof fn lemma_map_of_lookup(entries: Seq<(Seq<u8>, Seq<u8>)>, k: Seq<u8>)
    ensures
        map_of(entries).contains_key(k) <==> exists|j: int|
            0 <= j < entries.len() && (#[trigger] entries[j]).0 == k,
        forall|j: int|
            0 <= j < entries.len() && (#[trigger] entries[j]).0 == k && (forall|l: int|
                j < l < entries.len() ==> (#[trigger] entries[l]).0 != k) ==> map_of(entries)[k]
                == entries[j].1,
    decreases entries.len(),
{
    if entries.len() > 0 {
        lemma_map_of_lookup(entries.drop_last(), k);
        assert forall|j: int|
            0 <= j < entries.len() && (#[trigger] entries[j]).0 == k && (forall|l: int|
                j < l < entries.len() ==> (#[trigger] entries[l]).0 != k) implies map_of(
            entries,
        )[k] == entries[j].1 by {
            if j < entries.len() - 1 {
                assert(entries.last().0 != k);
                assert forall|l: int|
                    j < l < entries.drop_last().len() implies (#[trigger] entries.drop_last()[l]).0
                    != k by {
                    assert(entries.drop_last()[l] == entries[l]);
                }
                assert(entries.drop_last()[j] == entries[j]);
            }
        }
        if exists|j: int| 0 <= j < entries.len() && (#[trigger] entries[j]).0 == k {
            let j = choose|j: int| 0 <= j < entries.len() && (#[trigger] entries[j]).0 == k;
            if j < entries.len() - 1 {
                assert(entries.drop_last()[j] == entries[j]);
            }
            assert(map_of(entries).contains_key(k));
        }
    }
}

/// The mapping from path-segment keys to output subdirectory names,
/// loaded once and read-only for the whole run.
pub struct LabelMap {
    entries: Vec<(Vec<u8>, Vec<u8>)>,
}

impl LabelMap {
    /// The entries, in file order.
    pub closed spec fn entries_view(self) -> Seq<(Seq<u8>, Seq<u8>)> {
        pairs_view(self.entries@)
    }

    /// The mapping the entries build, later lines overriding earlier ones.
    pub open spec fn as_map(self) -> Map<Seq<u8>, Seq<u8>> {
        map_of(self.entries_view())
    }

    /// Parse the bytes of a label file: one `key value` pair per line.
    pub fn parse(content: &Vec<u8>) -> (r: LabelMap)
        ensures
            r.entries_view() == label_entries(content@),
            r.as_map() == map_of(label_entries(content@)),
    {
        let mut entries: Vec<(Vec<u8>, Vec<u8>)> = Vec::new();
        proof {
            assert(content@.skip(0) =~= content@);
            assert(pairs_view(entries@) =~= Seq::<(Seq<u8>, Seq<u8>)>::empty());
        }
        parse_entries(content, 0, &mut entries);
        LabelMap { entries }
    }

    /// Number of entries the file contributed.
    pub fn len(&self) -> (r: usize)
        ensures
            r == self.entries_view().len(),
    {
        self.entries.len()
    }

    /// The values of all entries, in file order, so a caller can create
    /// every label directory before any write.
    pub fn values(&self) -> (r: Vec<Vec<u8>>)
        ensures
            r@.len() == self.entries_view().len(),
            forall|i: int|
                0 <= i < r@.len() ==> (#[trigger] r@[i])@ == self.entries_view()[i].1,
    {
        let mut out: Vec<Vec<u8>> = Vec::new();
        let mut i: usize = 0;
        while i < self.entries.len()
            invariant
                i <= self.entries@.len(),
                out@.len() == i,
                forall|j: int|
                    0 <= j < i ==> (#[trigger] out@[j])@ == self.entries_view()[j].1,
            decreases self.entries@.len() - i,
        {
            let v = clone_bytes(&self.entries[i].1);
            proof {
                assert(self.entries_view()[i as int].1 == self.entries@[i as int].1@);
            }
            out.push(v);
            i = i + 1;
        }
        out
    }

    /// Look a key up; the value of the last line with that key, if any.
    pub fn get(&self, key: &Vec<u8>) -> (r: Option<Vec<u8>>)
        ensures
            r is Some <==> self.as_map().contains_key(key@),
            r is Some ==> r->0@ == self.as_map()[key@],
    {
        proof {
            lemma_map_of_lookup(self.entries_view(), key@);
        }
        let n = self.entries.len();
        let mut i: usize = n;
        while i > 0
            invariant
                n == self.entries@.len(),
                i <= n,
                forall|j: int| i <= j < n ==> (#[trigger] self.entries_view()[j]).0 != key@,
            decreases i,
        {
            let j = i - 1;
            if bytes_eq(&self.entries[j].0, key) {
                let value = clone_bytes(&self.entries[j].1);
                proof {
                    lemma_map_of_lookup(self.entries_view(), key@);
                    assert(self.entries_view()[j as int].0 == key@);
                }
                return Some(value);
            }
            proof {
                assert(self.entries_view()[j as int].0 == self.entries@[j as int].0@);
            }
            i = j;
        }
        proof {
            if self.as_map().contains_key(key@) {
                let j = choose|j: int|
                    0 <= j < self.entries_view().len() && (#[trigger] self.entries_view()[j]).0
                        == key@;
                assert(false);
            }
        }
        None
    }
}

/// A copy of a byte string.
pub fn clone_bytes(v: &Vec<u8>) -> (r: Vec<u8>)
    ensures
        r@ == v@,
{
    copy_range(v, 0, v.len())
}

} // verus!
