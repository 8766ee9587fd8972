//! Deterministic output naming for patches.
//!
//! A patch's file name encodes where it came from: the path of its source
//! image relative to the scan root, with the leading segment dropped and
//! the separators replaced by `|`, then the file stem, then the patch's
//! pixel coordinates, ending in `.jpg`. When a label map is configured and
//! the first relative segment has a label, the file goes into the label's
//! subdirectory of the target root; otherwise into the target root itself.
//! Paths are carried as sequences of byte-string segments.

use vstd::prelude::*;

use vstd::arithmetic::div_mod::lemma_div_decreases;

use crate::labels::{bytes_eq, clone_bytes, LabelMap};

verus! {

/// Decimal digits of `n`, most significant first.
pub open spec fn dec_digits(n: nat) -> Seq<u8>
    decreases n,
{
    if n < 10 {
        seq![(48 + n) as u8]
    } else {
        dec_digits(n / 10).push((48 + n % 10) as u8)
    }
}

/// The segments each followed by a `|` separator.
pub open spec fn joined(segs: Seq<Seq<u8>>) -> Seq<u8>
    decreases segs.len(),
{
    if segs.len() == 0 {
        Seq::empty()
    } else {
        joined(segs.drop_last()) + segs.last() + seq![124u8]
    }
}

/// Index of the last `.` of a file name, or `-1` if there is none.
pub open spec fn last_dot(name: Seq<u8>) -> int
    decreases name.len(),
{
    if name.len() == 0 {
        -1
    } else if name.last() == 46 {
        name.len() - 1
    } else {
        last_dot(name.drop_last())
    }
}

/// The file stem: everything before the last `.`, except that a name whose
/// only `.` leads (a hidden file) keeps the whole name.
pub open spec fn stem_of(name: Seq<u8>) -> Seq<u8> {
    if last_dot(name) <= 0 {
        name
    } else {
        name.subrange(0, last_dot(name))
    }
}

/// The file name of one patch, from the path of its source image relative
/// to the scan root (at least the file segment) and the patch coordinate:
/// the relative segments after the first, `|`-separated, then the stem,
/// then `x_y`, then `.jpg`.
pub open spec fn patch_name_spec(rel: Seq<Seq<u8>>, x: u32, y: u32) -> Seq<u8> {
    let mid = if rel.len() >= 2 {
        rel.subrange(1, rel.len() - 1)
    } else {
        Seq::empty()
    };
    joined(mid) + stem_of(rel.last()) + seq![124u8] + dec_digits(x as nat) + seq![95u8]
        + dec_digits(y as nat) + seq![46u8, 106u8, 112u8, 103u8]
}

/// The segments of a vector of byte strings, as sequences.
pub open spec fn segs_view(s: Seq<Vec<u8>>) -> Seq<Seq<u8>> {
    Seq::new(s.len(), |i: int| s[i]@)
}

/// `origin` lies strictly below the scan root `prefix`.
pub open spec fn under_prefix(origin: Seq<Seq<u8>>, prefix: Seq<Seq<u8>>) -> bool {
    origin.len() > prefix.len() && forall|i: int|
        0 <= i < prefix.len() ==> origin[i] == prefix[i]
}

proof fn lemma_last_dot_char(name: Seq<u8>)
    ensures
        -1 <= last_dot(name) < name.len(),
        last_dot(name) >= 0 ==> name[last_dot(name)] == 46,
        forall|j: int| last_dot(name) < j < name.len() ==> name[j] != 46,
    decreases name.len(),
{
    if name.len() > 0 && name.last() != 46 {
        lemma_last_dot_char(name.drop_last());
        assert forall|j: int| last_dot(name) < j < name.len() implies name[j] != 46 by {
            if j < name.len() - 1 {
                assert(name.drop_last()[j] == name[j]);
            }
        }
        if last_dot(name) >= 0 {
            assert(name.drop_last()[last_dot(name)] == name[last_dot(name)]);
        }
    }
}

/// Append the decimal digits of `n`.
fn push_dec(out: &mut Vec<u8>, n: u32)
    ensures
        final(out)@ == old(out)@ + dec_digits(n as nat),
    decreases n,
{
    if n < 10 {
        out.push(48 + n as u8);
        proof {
            assert(out@ =~= old(out)@ + dec_digits(n as nat));
        }
    } else {
        proof {
            lemma_div_decreases(n as int, 10);
        }
        push_dec(out, n / 10);
        out.push(48 + (n % 10) as u8);
        proof {
            assert(out@ =~= old(out)@ + dec_digits(n as nat));
        }
    }
}

/// Append all bytes of `seg`.
fn push_all(out: &mut Vec<u8>, seg: &Vec<u8>)
    ensures
        final(out)@ == old(out)@ + seg@,
{
    let mut i: usize = 0;
    while i < seg.len()
        invariant
            i <= seg@.len(),
            out@ == old(out)@ + seg@.subrange(0, i as int),
        decreases seg@.len() - i,
    {
        out.push(seg[i]);
        proof {
            assert(out@ =~= old(out)@ + seg@.subrange(0, i as int + 1));
        }
        i = i + 1;
    }
    proof {
        assert(old(out)@ + seg@.subrange(0, seg@.len() as int) =~= old(out)@ + seg@);
    }
}

/// Append the stem of `name`: the bytes before the last dot, or the whole
/// name when the only dot leads or none exists.
fn push_stem(out: &mut Vec<u8>, name: &Vec<u8>)
    ensures
        final(out)@ == old(out)@ + stem_of(name@),
{
    proof {
        lemma_last_dot_char(name@);
    }
    let mut i: usize = name.len();
    while i > 0
        invariant
            i <= name@.len(),
            out@ == old(out)@,
            forall|j: int| i <= j < name@.len() ==> name@[j] != 46,
        decreases i,
    {
        let j = i - 1;
        if name[j] == 46 {
            proof {
                lemma_last_dot_char(name@);
                assert(last_dot(name@) == j) by {
                    if last_dot(name@) > j {
                        assert(name@[last_dot(name@)] == 46);
                    }
                }
            }
            if j == 0 {
                push_all(out, name);
                return ;
            }
            let ghost pre = out@;
            let mut k: usize = 0;
            while k < j
                invariant
                    k <= j < name@.len(),
                    out@ == pre + name@.subrange(0, k as int),
                decreases j - k,
            {
                out.push(name[k]);
                proof {
                    assert(out@ =~= pre + name@.subrange(0, k as int + 1));
                }
                k = k + 1;
            }
            return ;
        }
        i = j;
    }
    proof {
        assert(last_dot(name@) == -1) by {
            if last_dot(name@) >= 0 {
                assert(name@[last_dot(name@)] == 46);
            }
        }
    }
    push_all(out, name);
}

/// The file name of one patch, as `patch_name_spec` describes it.
pub fn patch_name(origin: &Vec<Vec<u8>>, skip: usize, x: u32, y: u32) -> (r: Vec<u8>)
    requires
        skip < origin@.len(),
    ensures
        r@ == patch_name_spec(segs_view(origin@).skip(skip as int), x, y),
{
    let ghost rel = segs_view(origin@).skip(skip as int);
    let mut name: Vec<u8> = Vec::new();
    let last = origin.len() - 1;
    let mut i: usize = skip + 1;
    if i > last {
        i = last + 1;
    }
    proof {
        if rel.len() >= 2 {
            assert(rel.subrange(1, 1) =~= Seq::<Seq<u8>>::empty());
        }
        assert(name@ =~= joined(Seq::<Seq<u8>>::empty()));
    }
    while i < last
        invariant
            skip < origin@.len(),
            last == origin@.len() - 1,
            skip + 1 <= i <= last || (i == last + 1 && skip == last),
            rel == segs_view(origin@).skip(skip as int),
            rel.len() >= 2 ==> name@ == joined(rel.subrange(1, i - skip as int)),
            rel.len() < 2 ==> name@ == joined(Seq::<Seq<u8>>::empty()),
        decreases last - i,
    {
        push_all(&mut name, &origin[i]);
        name.push(124);
        proof {
            let sub = rel.subrange(1, i + 1 - skip as int);
            assert(sub.drop_last() =~= rel.subrange(1, i - skip as int));
            assert(sub.last() == origin@[i as int]@);
            assert(name@ =~= joined(sub));
        }
        i = i + 1;
    }
    proof {
        if rel.len() >= 2 {
            assert(rel.subrange(1, rel.len() - 1) =~= rel.subrange(1, last - skip as int));
        }
        assert(rel.last() == origin@[last as int]@);
    }
    push_stem(&mut name, &origin[last]);
    name.push(124);
    push_dec(&mut name, x);
    name.push(95);
    push_dec(&mut name, y);
    name.push(46);
    name.push(106);
    name.push(112);
    name.push(103);
    proof {
        assert(name@ =~= patch_name_spec(rel, x, y));
    }
    name
}

/// Writes patches under deterministic names, optionally routed into
/// label-named subdirectories; the fields are fixed for a whole run.
pub struct Saver {
    /// Segments of the scan root that origin paths are relative to.
    pub prefix: Vec<Vec<u8>>,
    /// Segments of the target root that all output goes under.
    pub target: Vec<Vec<u8>>,
    /// Optional routing of first-level segments to subdirectory names.
    pub label_map: Option<LabelMap>,
}

impl Saver {
    /// A saver for one run. Creating the target and label directories is
    /// the caller's step, done once before any write.
    pub fn build(prefix: Vec<Vec<u8>>, target: Vec<Vec<u8>>, label_map: Option<LabelMap>) -> (r:
        Saver)
        ensures
            r.prefix@ == prefix@,
            r.target@ == target@,
            r.label_map == label_map,
    {
        Saver { prefix, target, label_map }
    }

    /// The subdirectory segment the label map assigns to this origin, if
    /// any: the first segment below the scan root is looked up, and only
    /// when the origin has at least one directory level below the root.
    pub open spec fn label_part(self, rel: Seq<Seq<u8>>) -> Seq<Seq<u8>> {
        if self.label_map is Some && rel.len() >= 2 && self.label_map->0.as_map().contains_key(
            rel[0],
        ) {
            seq![self.label_map->0.as_map()[rel[0]]]
        } else {
            Seq::empty()
        }
    }

    /// Where one patch of `origin` goes: the target root, then the label
    /// subdirectory if one applies, then the patch's file name.
    ///
    /// Returns `None` exactly when `origin` does not lie strictly below
    /// the scan root; such a file is skipped.
    pub fn patch_path(&self, origin: &Vec<Vec<u8>>, x: u32, y: u32) -> (r: Option<Vec<Vec<u8>>>)
        ensures
            r is Some <==> under_prefix(segs_view(origin@), segs_view(self.prefix@)),
            r is Some ==> segs_view(r->0@) == segs_view(self.target@) + self.label_part(
                segs_view(origin@).skip(self.prefix@.len() as int),
            ) + seq![
                patch_name_spec(segs_view(origin@).skip(self.prefix@.len() as int), x, y),
            ],
    {
        let plen = self.prefix.len();
        if origin.len() <= plen {
            proof {
                assert(!under_prefix(segs_view(origin@), segs_view(self.prefix@)));
            }
            return None;
        }
        let mut i: usize = 0;
        while i < plen
            invariant
                plen == self.prefix@.len() < origin@.len(),
                i <= plen,
                forall|j: int|
                    0 <= j < i ==> segs_view(origin@)[j] == segs_view(self.prefix@)[j],
            decreases plen - i,
        {
            if !bytes_eq(&origin[i], &self.prefix[i]) {
                proof {
                    assert(segs_view(origin@)[i as int] != segs_view(self.prefix@)[i as int]);
                }
                return None;
            }
            i = i + 1;
        }
        let ghost rel = segs_view(origin@).skip(plen as int);
        let mut path: Vec<Vec<u8>> = Vec::new();
        proof {
            assert(segs_view(path@) =~= segs_view(self.target@).subrange(0, 0));
        }
        let mut k: usize = 0;
        while k < self.target.len()
            invariant
                k <= self.target@.len(),
                segs_view(path@) == segs_view(self.target@).subrange(0, k as int),
            decreases self.target@.len() - k,
        {
            let seg: &Vec<u8> = &self.target[k];
            proof {
                assert(seg@ == self.target@[k as int]@);
            }
            let cloned = clone_bytes(seg);
            proof {
                assert(cloned@ == self.target@[k as int]@);
            }
            let ghost pre = path@;
            path.push(cloned);
            proof {
                assert(segs_view(pre).len() == pre.len());
                assert(segs_view(self.target@).subrange(0, k as int).len() == k as int);
                assert(pre.len() == k);
                assert(path@.len() == pre.len() + 1);
                assert(segs_view(path@).len() == path@.len());
                assert forall|idx: int|
                    0 <= idx < path@.len() implies segs_view(path@)[idx] == segs_view(
                    self.target@,
                ).subrange(0, k as int + 1)[idx] by {
                    if idx < pre.len() {
                        assert(path@[idx] == pre[idx]);
                        assert(segs_view(pre)[idx] == segs_view(self.target@).subrange(
                            0,
                            k as int,
                        )[idx]);
                    } else {
                        assert(path@[idx] == cloned);
                    }
                }
                assert(segs_view(path@) =~= segs_view(self.target@).subrange(0, k as int + 1));
            }
            k = k + 1;
        }
        proof {
            assert(segs_view(self.target@).subrange(0, self.target@.len() as int) =~= segs_view(
                self.target@,
            ));
        }
        if let Some(map) = &self.label_map {
            if origin.len() - plen >= 2 {
                if let Some(lab) = map.get(&origin[plen]) {
                    proof {
                        assert(segs_view(origin@)[plen as int] == origin@[plen as int]@);
                        assert(rel[0] == origin@[plen as int]@);
                    }
                    path.push(lab);
                }
            }
        }
        proof {
            assert(segs_view(path@) =~= segs_view(self.target@) + self.label_part(rel));
        }
        let name = patch_name(origin, plen, x, y);
        path.push(name);
        proof {
            assert(segs_view(path@) =~= segs_view(self.target@) + self.label_part(rel) + seq![
                patch_name_spec(rel, x, y),
            ]);
        }
        Some(path)
    }
}

} // verus!
