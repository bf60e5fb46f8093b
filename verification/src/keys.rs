use vstd::prelude::*;
use crate::error::Error;
use crate::strings::{dec_str, str_eq, u64_to_string};

verus! {

/// One segment of a hierarchical key: non-empty, without the `/` separator.
pub open spec fn seg_wf(s: Seq<char>) -> bool {
    s.len() > 0 && forall|i: int| 0 <= i < s.len() ==> s[i] != '/'
}

/// Segments joined by `/`.
pub open spec fn joined(segs: Seq<Seq<char>>) -> Seq<char>
    decreases segs.len(),
{
    if segs.len() == 0 {
        Seq::empty()
    } else if segs.len() == 1 {
        segs[0]
    } else {
        joined(segs.drop_last()) + seq!['/'] + segs.last()
    }
}

/// A string that parses into a well-formed key: non-empty, and without
/// leading, trailing or doubled separators.
pub open spec fn valid_key_str(s: Seq<char>) -> bool {
    &&& s.len() > 0
    &&& s[0] != '/'
    &&& s[s.len() - 1] != '/'
    &&& forall|i: int| 0 < i < s.len() ==> !((#[trigger] s[i]) == '/' && s[i - 1] == '/')
}

/// Checks that a key string has no leading, trailing or doubled separator.
fn is_valid_key_str(s: &str) -> (r: bool)
    ensures
        r == valid_key_str(s@),
{
    let n = s.unicode_len();
    if n == 0 {
        return false;
    }
    if s.get_char(0) == '/' {
        return false;
    }
    if s.get_char(n - 1) == '/' {
        return false;
    }
    let mut i: usize = 1;
    while i < n
        invariant
            1 <= i <= n,
            n == s@.len(),
            forall|j: int| 0 < j < i ==> !((#[trigger] s@[j]) == '/' && s@[j - 1] == '/'),
        decreases n - i,
    {
        if s.get_char(i) == '/' && s.get_char(i - 1) == '/' {
            return false;
        }
        i = i + 1;
    }
    true
}

/// A hierarchical storage key: a non-empty sequence of path segments.
pub struct Key {
    pub segments: Vec<String>,
}

impl View for Key {
    type V = Seq<Seq<char>>;

    open spec fn view(&self) -> Seq<Seq<char>> {
        Seq::new(self.segments.len() as nat, |i: int| self.segments[i]@)
    }
}

impl Key {
    /// Every segment is non-empty and free of separators.
    pub open spec fn wf(self) -> bool {
        self@.len() > 0 && forall|i: int| 0 <= i < self@.len() ==> seg_wf(#[trigger] self@[i])
    }

    /// The string the key renders to.
    pub open spec fn str_view(self) -> Seq<char> {
        joined(self@)
    }

    /// Renders the key with `/` between segments.
    pub fn to_string(&self) -> (r: String)
        requires
            self@.len() > 0,
        ensures
            r@ == self.str_view(),
    {
        let mut r = self.segments[0].clone();
        let n = self.segments.len();
        let mut i: usize = 1;
        proof {
            assert(self@.take(1) =~= seq![self@[0]]);
            assert(joined(self@.take(1)) == self@[0]);
        }
        while i < n
            invariant
                1 <= i <= n,
                n == self.segments.len(),
                r@ == joined(self@.take(i as int)),
            decreases n - i,
        {
            r.append("/");
            r.append(self.segments[i].as_str());
            proof {
                crate::strings::reveal_slash();
                let cur = self@.take(i + 1);
                assert(cur.drop_last() =~= self@.take(i as int));
                assert(cur.last() == self@[i as int]);
                assert(cur.len() > 1);
            }
            i = i + 1;
        }
        proof {
            assert(self@.take(n as int) =~= self@);
        }
        r
    }

    /// Parses a `/`-separated key string; fails with `InvalidKey` exactly
    /// when the string is empty or has an empty segment.
    ///
    /// Reserved segment names need no rejection here: caller-supplied
    /// keys never share a position with the engine's own segments. The
    /// subspace family holds account keys alone; in the diff families
    /// they stand behind a height-and-kind prefix; the state singletons
    /// and their `pred/` siblings are engine constants; and the replay
    /// and block records live in families of their own.
    pub fn parse(s: &str) -> (r: Result<Key, Error>)
        ensures
            match r {
                Ok(k) => valid_key_str(s@) && k.wf() && k.str_view() == s@,
                Err(e) => !valid_key_str(s@) && e is InvalidKey,
            },
    {
        if !is_valid_key_str(s) {
            return Err(Error::InvalidKey(s.to_owned()));
        }
        let n = s.unicode_len();
        let mut segments: Vec<String> = Vec::new();
        let mut start: usize = 0;
        let mut i: usize = 0;
        while i < n
            invariant
                0 <= start <= i <= n,
                n == s@.len(),
                valid_key_str(s@),
                start == 0 ==> segments@.len() == 0,
                start > 0 ==> segments@.len() > 0 && s@[start - 1] == '/' && joined(
                    Seq::new(segments@.len(), |j: int| segments@[j]@),
                ) == s@.take(start - 1),
                forall|j: int| 0 <= j < segments@.len() ==> seg_wf((#[trigger] segments@[j])@),
                forall|j: int| start <= j < i ==> s@[j] != '/',
            decreases n - i,
        {
            let c = s.get_char(i);
            if c == '/' {
                proof {
                    // an empty segment would mean a leading or doubled separator
                    if i == start {
                        if start == 0 {
                            assert(s@[0] == '/');
                        } else {
                            assert(s@[start as int] == '/' && s@[start - 1] == '/');
                        }
                        assert(false);
                    }
                }
                let seg = s.substring_char(start, i);
                let ghost old_segments = segments@;
                segments.push(seg.to_owned());
                proof {
                    assert(seg@ =~= s@.subrange(start as int, i as int));
                    assert(seg_wf(seg@));
                    let segs_view = Seq::new(segments@.len(), |j: int| segments@[j]@);
                    let old_view = Seq::new(old_segments.len(), |j: int| old_segments[j]@);
                    assert(segs_view.drop_last() =~= old_view);
                    assert(segs_view.last() == seg@);
                    if old_segments.len() == 0 {
                        assert(joined(segs_view) == seg@);
                        assert(seg@ =~= s@.take(i as int));
                    } else {
                        assert(joined(segs_view) == joined(old_view) + seq!['/'] + seg@);
                        assert(joined(old_view) + seq!['/'] + seg@ =~= s@.take(i as int)) by {
                            assert(joined(old_view) == s@.take(start - 1));
                            assert(s@[start - 1] == '/');
                        }
                    }
                    assert(joined(segs_view) == s@.take(i as int));
                }
                start = i + 1;
            }
            i = i + 1;
        }
        proof {
            // a trailing separator would leave an empty last segment
            if start == n {
                assert(s@[n - 1] == '/');
                assert(false);
            }
        }
        let seg = s.substring_char(start, n);
        let ghost old_segments = segments@;
        segments.push(seg.to_owned());
        let k = Key { segments };
        proof {
            assert(seg@ =~= s@.subrange(start as int, n as int));
            assert(seg_wf(seg@));
            let segs_view = k@;
            let old_view = Seq::new(old_segments.len(), |j: int| old_segments[j]@);
            assert(segs_view.drop_last() =~= old_view);
            assert(segs_view.last() == seg@);
            if old_segments.len() == 0 {
                assert(joined(segs_view) == seg@);
                assert(seg@ =~= s@);
            } else {
                assert(joined(segs_view) == joined(old_view) + seq!['/'] + seg@);
                assert(joined(old_view) + seq!['/'] + seg@ =~= s@) by {
                    assert(joined(old_view) == s@.take(start - 1));
                    assert(s@[start - 1] == '/');
                }
            }
            assert(k.wf());
        }
        Ok(k)
    }

    /// Appends one segment; fails with `InvalidKey` exactly when the segment
    /// is empty or holds a separator.
    pub fn push(&self, seg: &str) -> (r: Result<Key, Error>)
        ensures
            match r {
                Ok(k) => seg_wf(seg@) && k@ == self@.push(seg@),
                Err(e) => !seg_wf(seg@) && e is InvalidKey,
            },
    {
        let m = seg.unicode_len();
        if m == 0 {
            return Err(Error::InvalidKey(seg.to_owned()));
        }
        let mut i: usize = 0;
        while i < m
            invariant
                0 <= i <= m,
                m == seg@.len(),
                forall|j: int| 0 <= j < i ==> seg@[j] != '/',
            decreases m - i,
        {
            if seg.get_char(i) == '/' {
                return Err(Error::InvalidKey(seg.to_owned()));
            }
            i = i + 1;
        }
        let mut segments = self.clone_segments();
        segments.push(seg.to_owned());
        let k = Key { segments };
        proof {
            assert(k@ =~= self@.push(seg@));
        }
        Ok(k)
    }

    /// Concatenates the segments of `other` after those of `self`.
    pub fn join(&self, other: &Key) -> (k: Key)
        ensures
            k@ == self@ + other@,
    {
        let mut segments = self.clone_segments();
        let n = other.segments.len();
        let mut i: usize = 0;
        while i < n
            invariant
                i <= n,
                n == other.segments.len(),
                segments@.len() == self.segments.len() + i,
                forall|j: int|
                    0 <= j < segments@.len() ==> (#[trigger] segments@[j])@ == (self@ + other@.take(
                        i as int,
                    ))[j],
            decreases n - i,
        {
            segments.push(other.segments[i].clone());
            i = i + 1;
        }
        let k = Key { segments };
        proof {
            assert(k@ =~= self@ + other@);
        }
        k
    }

    fn clone_segments(&self) -> (out: Vec<String>)
        ensures
            out@.len() == self.segments@.len(),
            forall|j: int|
                0 <= j < out@.len() ==> (#[trigger] out@[j])@ == self.segments@[j]@,
    {
        let mut out: Vec<String> = Vec::new();
        let n = self.segments.len();
        let mut i: usize = 0;
        while i < n
            invariant
                i <= n,
                n == self.segments@.len(),
                out@.len() == i,
                forall|j: int| 0 <= j < i ==> (#[trigger] out@[j])@ == self.segments@[j]@,
            decreases n - i,
        {
            out.push(self.segments[i].clone());
            i = i + 1;
        }
        out
    }

    /// Whether the two keys hold the same segments.
    pub fn eq_key(&self, other: &Key) -> (r: bool)
        ensures
            r == (self@ == other@),
    {
        let n = self.segments.len();
        if n != other.segments.len() {
            proof {
                assert(self@.len() != other@.len());
            }
            return false;
        }
        let mut i: usize = 0;
        while i < n
            invariant
                i <= n,
                n == self.segments@.len(),
                n == other.segments@.len(),
                forall|j: int| 0 <= j < i ==> self@[j] == other@[j],
            decreases n - i,
        {
            if !str_eq(self.segments[i].as_str(), other.segments[i].as_str()) {
                proof {
                    assert(self@[i as int] != other@[i as int]);
                }
                return false;
            }
            i = i + 1;
        }
        proof {
            assert(self@ =~= other@);
        }
        true
    }
}

/// The key under which a diff of `key` at `height` records the prior value.
pub open spec fn old_diff_key(height: nat, key: Seq<char>) -> Seq<char> {
    dec_str(height) + "/old/"@ + key
}

/// The key under which a diff of `key` at `height` records the new value.
pub open spec fn new_diff_key(height: nat, key: Seq<char>) -> Seq<char> {
    dec_str(height) + "/new/"@ + key
}

/// Composes the diff keys `<height>/old/<key>` and `<height>/new/<key>`.
pub fn old_and_new_diff_key(key: &Key, height: u64) -> (r: (String, String))
    requires
        key@.len() > 0,
    ensures
        r.0@ == old_diff_key(height as nat, key.str_view()),
        r.1@ == new_diff_key(height as nat, key.str_view()),
{
    let h = u64_to_string(height);
    let key_str = key.to_string();
    let mut old_key = h.clone();
    old_key.append("/old/");
    old_key.append(key_str.as_str());
    let mut new_key = h;
    new_key.append("/new/");
    new_key.append(key_str.as_str());
    (old_key, new_key)
}

/// Composes the diff keys of a rendered key string.
pub fn diff_keys_str(key_str: &str, height: u64) -> (r: (String, String))
    ensures
        r.0@ == old_diff_key(height as nat, key_str@),
        r.1@ == new_diff_key(height as nat, key_str@),
{
    let h = u64_to_string(height);
    let mut old_key = h.clone();
    old_key.append("/old/");
    old_key.append(key_str);
    let mut new_key = h;
    new_key.append("/new/");
    new_key.append(key_str);
    (old_key, new_key)
}

/// The common prefix of all old-diff keys of one height.
pub open spec fn old_diff_pfx(height: nat) -> Seq<char> {
    dec_str(height) + "/old/"@
}

/// The common prefix of all new-diff keys of one height.
pub open spec fn new_diff_pfx(height: nat) -> Seq<char> {
    dec_str(height) + "/new/"@
}

/// Composes the prefix `<height>/old/` shared by a height's old diffs.
pub fn old_diff_prefix(height: u64) -> (r: String)
    ensures
        r@ == old_diff_pfx(height as nat),
{
    let mut r = u64_to_string(height);
    r.append("/old/");
    r
}

/// Composes the prefix `<height>/new/` shared by a height's new diffs.
pub fn new_diff_prefix(height: u64) -> (r: String)
    ensures
        r@ == new_diff_pfx(height as nat),
{
    let mut r = u64_to_string(height);
    r.append("/new/");
    r
}

/// The `pred/<name>` sibling of a state key.
pub open spec fn pred_key_spec(name: Seq<char>) -> Seq<char> {
    "pred/"@ + name
}

/// Composes the predecessor sibling `pred/<name>`.
pub fn pred_key(name: &str) -> (r: String)
    ensures
        r@ == pred_key_spec(name@),
{
    let mut r = "pred/".to_owned();
    r.append(name);
    r
}

/// The block-results key `results/<height>`.
pub open spec fn results_key_spec(height: nat) -> Seq<char> {
    "results/"@ + dec_str(height)
}

/// Composes the block-results key `results/<height>`.
pub fn results_key(height: u64) -> (r: String)
    ensures
        r@ == results_key_spec(height as nat),
{
    let mut r = "results/".to_owned();
    r.append(u64_to_string(height).as_str());
    r
}

/// A per-height block key `<height>/<segment>`.
pub open spec fn height_seg_key(height: nat, seg: Seq<char>) -> Seq<char> {
    dec_str(height) + "/"@ + seg
}

/// Composes the per-height block key `<height>/<segment>`.
pub fn height_key(height: u64, seg: &str) -> (r: String)
    ensures
        r@ == height_seg_key(height as nat, seg@),
{
    let mut r = u64_to_string(height);
    r.append("/");
    r.append(seg);
    r
}

} // verus!
