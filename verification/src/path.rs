//! Hierarchical keys and their decomposition into directory links.
//!
//! A key is a string beginning with `/`; a trailing `/` marks a directory.
//! A `Path` caches, for a key, the sequence of `(parent_dir, child_name)`
//! pairs along the chain from the root down to the key itself.

use vstd::prelude::*;

verus! {

use vstd::string::StrSliceExecFns;
use vstd::string::StringExecFns;

/// Positions just after each `/` in `s`, in ascending order.
pub open spec fn cut_points(s: Seq<char>) -> Seq<int>
    decreases s.len(),
{
    if s.len() == 0 {
        Seq::empty()
    } else if s.last() == '/' {
        cut_points(s.drop_last()) + seq![s.len() as int]
    } else {
        cut_points(s.drop_last())
    }
}

/// The boundaries of the key's components: the start of the string, the
/// position after each `/`, and the end of the string when a final
/// document name follows the last `/`.
pub open spec fn part_bounds(s: Seq<char>) -> Seq<int> {
    let c = seq![0int] + cut_points(s);
    if s.len() > c.last() {
        c + seq![s.len() as int]
    } else {
        c
    }
}

/// The `(parent_dir, child_name)` pairs of the key, one per edge from the
/// root down to and including the key itself.  Each parent is the prefix
/// of the key up to a component boundary; each child is the following
/// component, keeping its trailing `/` when the child is a directory.
pub open spec fn spec_links(s: Seq<char>) -> Seq<(Seq<char>, Seq<char>)> {
    let b = part_bounds(s);
    if b.len() < 2 {
        Seq::empty()
    } else {
        Seq::new((b.len() - 2) as nat, |j: int| (s.take(b[j + 1]), s.subrange(b[j + 1], b[j + 2])))
    }
}

/// The ancestor directories of the key, root first, excluding the key.
pub open spec fn spec_dirs(s: Seq<char>) -> Seq<Seq<char>> {
    spec_links(s).map_values(|p: (Seq<char>, Seq<char>)| p.0)
}

/// Whether the key names a directory: it ends with `/`.
pub open spec fn spec_is_dir(s: Seq<char>) -> bool {
    s.len() > 0 && s.last() == '/'
}

/// Every cut point lies in `1 ..= s.len()` and the sequence is strictly
/// ascending.
pub proof fn lemma_cut_points_ascending(s: Seq<char>)
    ensures
        forall|j: int|
            0 <= j < cut_points(s).len() ==> 1 <= #[trigger] cut_points(s)[j] <= s.len(),
        forall|j: int, k: int|
            0 <= j < k < cut_points(s).len() ==> #[trigger] cut_points(s)[j] < #[trigger] cut_points(
                s,
            )[k],
    decreases s.len(),
{
    if s.len() > 0 {
        lemma_cut_points_ascending(s.drop_last());
        let c = cut_points(s);
        let cd = cut_points(s.drop_last());
        if s.last() == '/' {
            assert(c == cd + seq![s.len() as int]);
            assert forall|j: int| 0 <= j < c.len() implies 1 <= #[trigger] c[j] <= s.len() by {
                if j < cd.len() {
                    assert(c[j] == cd[j]);
                }
            }
            assert forall|j: int, k: int| 0 <= j < k < c.len() implies #[trigger] c[j]
                < #[trigger] c[k] by {
                if k < cd.len() {
                    assert(c[j] == cd[j] && c[k] == cd[k]);
                } else {
                    assert(c[j] == cd[j] && c[k] == s.len());
                }
            }
        } else {
            assert(c == cd);
        }
    }
}

/// Extending the string by one character extends its cut points by at
/// most one entry.
pub proof fn lemma_cut_points_step(s: Seq<char>, i: int)
    requires
        0 <= i < s.len(),
    ensures
        cut_points(s.take(i + 1)) == if s[i] == '/' {
            cut_points(s.take(i)) + seq![i + 1]
        } else {
            cut_points(s.take(i))
        },
{
    let t = s.take(i + 1);
    assert(t.drop_last() =~= s.take(i));
    assert(t.last() == s[i]);
    if s[i] == '/' {
        assert(cut_points(t) =~= cut_points(s.take(i)) + seq![i + 1]);
    } else {
        assert(cut_points(t) =~= cut_points(s.take(i)));
    }
}

/// A key of the document store, with its decomposition into links.
#[derive(Debug, PartialEq, Eq)]
pub struct Path {
    original: String,
    parts: Vec<(String, String)>,
}

impl View for Path {
    type V = Seq<char>;

    closed spec fn view(&self) -> Seq<char> {
        self.original@
    }
}

impl Path {
    /// The cached pairs agree with the decomposition of the key string.
    pub closed spec fn wf(&self) -> bool {
        self.parts.deep_view() == spec_links(self.original@)
    }

    pub fn new(name: &str) -> (p: Path)
        ensures
            p@ == name@,
            p.wf(),
    {
        Path { original: name.to_owned(), parts: parse(name) }
    }

    pub fn is_valid(&self) -> (r: bool)
        ensures
            r == (self@.len() > 0 && self@[0] == '/'),
    {
        if self.original.as_str().unicode_len() == 0 {
            false
        } else {
            self.original.as_str().get_char(0) == '/'
        }
    }

    pub fn is_dir(&self) -> (r: bool)
        ensures
            r == spec_is_dir(self@),
    {
        let n = self.original.as_str().unicode_len();
        if n == 0 {
            false
        } else {
            self.original.as_str().get_char(n - 1) == '/'
        }
    }

    pub fn is_doc(&self) -> (r: bool)
        ensures
            r == !spec_is_dir(self@),
    {
        !self.is_dir()
    }

    pub fn full(&self) -> (r: &str)
        ensures
            r@ == self@,
    {
        self.original.as_str()
    }

    /// The ancestor directories of the key, root first.
    pub fn dirs(&self) -> (r: Vec<String>)
        requires
            self.wf(),
        ensures
            r.deep_view() == spec_dirs(self@),
    {
        let mut out: Vec<String> = Vec::new();
        let mut j: usize = 0;
        while j < self.parts.len()
            invariant
                self.wf(),
                0 <= j <= self.parts.len(),
                out.deep_view() =~= spec_links(self@).take(j as int).map_values(
                    |p: (Seq<char>, Seq<char>)| p.0,
                ),
            decreases self.parts.len() - j,
        {
            let el = self.parts[j].0.clone();
            let ghost gout = out;
            let ghost gel = el;
            out.push(el);
            proof {
                crate::strutil::lemma_deep_view_push(gout, out, gel);
                assert(self.parts.deep_view()[j as int] == spec_links(self@)[j as int]);
                assert(self.parts.deep_view()[j as int] == (
                    self.parts@[j as int].0@,
                    self.parts@[j as int].1@,
                ));
                assert(out.deep_view() =~= spec_links(self@).take(j + 1).map_values(
                    |p: (Seq<char>, Seq<char>)| p.0,
                ));
            }
            j += 1;
        }
        proof {
            assert(self.parts.deep_view().len() == spec_links(self@).len());
            assert(spec_links(self@).take(self.parts.len() as int) =~= spec_links(self@));
        }
        out
    }

    /// The `(parent_dir, child_name)` pairs of the key, shallowest first.
    pub fn links(&self) -> (r: &Vec<(String, String)>)
        requires
            self.wf(),
        ensures
            r.deep_view() == spec_links(self@),
    {
        &self.parts
    }
}

/// Whether a key string names a directory: it ends with `/`.
pub fn str_is_dir(s: &str) -> (r: bool)
    ensures
        r == spec_is_dir(s@),
{
    let n = s.unicode_len();
    if n == 0 {
        false
    } else {
        s.get_char(n - 1) == '/'
    }
}

/// Whether a vector of positions matches a sequence of mathematical
/// integers entry by entry.
pub open spec fn bounds_match(bs: Seq<usize>, ints: Seq<int>) -> bool {
    bs.len() == ints.len() && forall|k: int| 0 <= k < bs.len() ==> #[trigger] (bs[k] as int)
        == ints[k]
}

/// Decompose a key string into its `(parent_dir, child_name)` pairs.
pub fn parse(path: &str) -> (r: Vec<(String, String)>)
    ensures
        r.deep_view() == spec_links(path@),
{
    let n = path.unicode_len();
    let mut bounds: Vec<usize> = Vec::new();
    bounds.push(0);
    let mut i: usize = 0;
    while i < n
        invariant
            n == path@.len(),
            0 <= i <= n,
            bounds_match(bounds@, seq![0int] + cut_points(path@.take(i as int))),
        decreases n - i,
    {
        proof {
            lemma_cut_points_step(path@, i as int);
        }
        if path.get_char(i) == '/' {
            let ghost gb = bounds@;
            bounds.push(i + 1);
            proof {
                let tgt = seq![0int] + cut_points(path@.take(i + 1));
                assert forall|k: int| 0 <= k < bounds@.len() implies #[trigger] (bounds@[k] as int)
                    == tgt[k] by {
                    if k < gb.len() {
                        assert(bounds@[k] == gb[k]);
                    }
                }
                assert(bounds_match(bounds@, tgt));
            }
        } else {
            assert(bounds_match(bounds@, seq![0int] + cut_points(path@.take(i + 1))));
        }
        i += 1;
    }
    assert(path@.take(n as int) =~= path@);
    proof {
        lemma_cut_points_ascending(path@);
    }
    let last = bounds[bounds.len() - 1];
    assert(last as int == (seq![0int] + cut_points(path@)).last());
    let ghost pb = part_bounds(path@);
    if n > last {
        let ghost gb = bounds@;
        bounds.push(n);
        proof {
            assert forall|k: int| 0 <= k < bounds@.len() implies #[trigger] (bounds@[k] as int)
                == pb[k] by {
                if k < gb.len() {
                    assert(bounds@[k] == gb[k]);
                }
            }
        }
    }
    assert(bounds_match(bounds@, pb));
    proof {
        assert(pb[0] == 0);
        assert forall|k: int| 0 <= k < pb.len() implies 0 <= #[trigger] pb[k] <= path@.len() by {
            if 1 <= k <= cut_points(path@).len() {
                assert(pb[k] == cut_points(path@)[k - 1]);
            }
        }
        assert forall|k1: int, k2: int| 0 <= k1 < k2 < pb.len() implies #[trigger] pb[k1]
            < #[trigger] pb[k2] by {
            let c = cut_points(path@);
            if 1 <= k1 <= c.len() {
                assert(pb[k1] == c[k1 - 1]);
            }
            if 1 <= k2 <= c.len() {
                assert(pb[k2] == c[k2 - 1]);
            }
            if k2 == c.len() + 1 {
                assert(pb[k2] == path@.len());
                assert((seq![0int] + c).last() == pb[k2 - 1]);
            }
        }
    }

    let mut parts: Vec<(String, String)> = Vec::new();
    let m = bounds.len();
    assert(m == pb.len());
    if m >= 2 {
        let mut j: usize = 0;
        while j < m - 2
            invariant
                2 <= m == bounds.len(),
                0 <= j <= m - 2,
                bounds_match(bounds@, pb),
                pb == part_bounds(path@),
                parts.deep_view() =~= spec_links(path@).take(j as int),
                forall|k: int| 0 <= k < pb.len() ==> 0 <= #[trigger] pb[k] <= path@.len(),
                forall|k1: int, k2: int|
                    0 <= k1 < k2 < pb.len() ==> #[trigger] pb[k1] < #[trigger] pb[k2],
            decreases m - j,
        {
            let a = bounds[j + 1];
            let b2 = bounds[j + 2];
            proof {
                assert(a as int == pb[j + 1]);
                assert(b2 as int == pb[j + 2]);
            }
            let dir = path.substring_char(0, a).to_owned();
            let name = path.substring_char(a, b2).to_owned();
            let ghost gparts = parts;
            let ghost gpair = (dir, name);
            parts.push((dir, name));
            proof {
                crate::strutil::lemma_deep_view_push(gparts, parts, gpair);
                assert(spec_links(path@)[j as int] == (
                    path@.take(pb[j + 1]),
                    path@.subrange(pb[j + 1], pb[j + 2]),
                ));
                assert(path@.take(pb[j + 1]) =~= path@.subrange(0, pb[j + 1]));
                assert(dir@ == path@.take(pb[j + 1]));
                assert(parts.deep_view() =~= spec_links(path@).take(j + 1));
            }
            j += 1;
        }
        assert(spec_links(path@).take(j as int) =~= spec_links(path@));
    } else {
        assert(spec_links(path@).len() == 0);
        assert(parts.deep_view() =~= spec_links(path@));
    }
    parts
}

} // verus!
