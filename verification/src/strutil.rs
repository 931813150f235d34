//! String and path helpers over `Seq<char>` views.
//!
//! Paths are plain strings with `/` as the separator. The helpers here give
//! the library exact, executable forms of the path operations the analysis
//! needs: prefix stripping, parent/file-name decomposition, joining and
//! lexical normalization.

use vstd::prelude::*;

verus! {

use vstd::string::StrSliceExecFns;
use vstd::string::StringExecFns;

/// `p` lies under `root`: it is `root` itself or `root` followed by a
/// path separator.
pub open spec fn path_has_prefix(p: Seq<char>, root: Seq<char>) -> bool {
    p == root || (p.len() > root.len() && p.subrange(0, root.len() as int) == root
        && p[root.len() as int] == '/')
}

/// The path `p` rebased against `root`: the part after `root` and its
/// separator when `p` lies under `root`, otherwise `p` unchanged.
pub open spec fn strip_prefix_spec(p: Seq<char>, root: Seq<char>) -> Seq<char> {
    if p == root {
        Seq::<char>::empty()
    } else if path_has_prefix(p, root) {
        p.subrange(root.len() + 1int, p.len() as int)
    } else {
        p
    }
}

/// Index of the last `/` in `p`, or `None`.
pub open spec fn last_slash_spec(p: Seq<char>) -> Option<int>
    decreases p.len(),
{
    if p.len() == 0 {
        None
    } else if p[p.len() - 1] == '/' {
        Some(p.len() - 1)
    } else {
        last_slash_spec(p.drop_last())
    }
}

/// The directory part of `p`: everything before the last `/`, the root `/`
/// when the last `/` is leading, and the empty string when `p` has no `/`.
pub open spec fn parent_spec(p: Seq<char>) -> Seq<char> {
    match last_slash_spec(p) {
        None => Seq::<char>::empty(),
        Some(i) => if i == 0 { seq!['/'] } else { p.subrange(0, i) },
    }
}

/// The file-name part of `p`: everything after the last `/`.
pub open spec fn file_name_spec(p: Seq<char>) -> Seq<char> {
    match last_slash_spec(p) {
        None => p,
        Some(i) => p.subrange(i + 1, p.len() as int),
    }
}

/// Index of the last `.` in a name, or `None`.
pub open spec fn last_dot_spec(p: Seq<char>) -> Option<int>
    decreases p.len(),
{
    if p.len() == 0 {
        None
    } else if p[p.len() - 1] == '.' {
        Some(p.len() - 1)
    } else {
        last_dot_spec(p.drop_last())
    }
}

/// The stem of a file name `n`: the part before the last `.`, except that a
/// leading `.` does not start an extension.
pub open spec fn stem_of_name_spec(n: Seq<char>) -> Seq<char> {
    match last_dot_spec(n) {
        None => n,
        Some(i) => if i == 0 { n } else { n.subrange(0, i) },
    }
}

/// The extension of a file name `n`: the part after the last `.`, or `None`
/// when there is no `.` past the first character.
pub open spec fn ext_of_name_spec(n: Seq<char>) -> Option<Seq<char>> {
    match last_dot_spec(n) {
        None => None,
        Some(i) => if i == 0 { None } else { Some(n.subrange(i + 1, n.len() as int)) },
    }
}

/// `base` and `name` joined with a separator; an empty `base` and the root
/// `/` add no extra separator.
pub open spec fn path_join_spec(base: Seq<char>, name: Seq<char>) -> Seq<char> {
    if base.len() == 0 {
        name
    } else if base == seq!['/'] {
        seq!['/'] + name
    } else {
        base + seq!['/'] + name
    }
}

/// Whether strings `a` and `b` hold the same characters.
pub fn str_eq(a: &str, b: &str) -> (r: bool)
    ensures
        r == (a@ == b@),
{
    let alen = a.unicode_len();
    let blen = b.unicode_len();
    if alen != blen {
        assert(a@ != b@) by {
            assert(a@.len() != b@.len());
        }
        return false;
    }
    let mut i: usize = 0;
    while i < alen
        invariant
            alen == a@.len(),
            alen == b@.len(),
            0 <= i <= alen,
            forall|j: int| 0 <= j < i ==> a@[j] == b@[j],
        decreases alen - i,
    {
        if a.get_char(i) != b.get_char(i) {
            assert(a@ != b@);
            return false;
        }
        i += 1;
    }
    assert(a@ =~= b@);
    true
}

/// Whether `p` lies under `root`.
pub fn has_path_prefix(p: &str, root: &str) -> (r: bool)
    ensures
        r == path_has_prefix(p@, root@),
{
    let plen = p.unicode_len();
    let rlen = root.unicode_len();
    if plen < rlen {
        assert(!path_has_prefix(p@, root@));
        return false;
    }
    let mut i: usize = 0;
    while i < rlen
        invariant
            plen == p@.len(),
            rlen == root@.len(),
            rlen <= plen,
            0 <= i <= rlen,
            forall|j: int| 0 <= j < i ==> p@[j] == root@[j],
        decreases rlen - i,
    {
        if p.get_char(i) != root.get_char(i) {
            assert(p@ != root@);
            assert(p@.subrange(0, root@.len() as int) != root@) by {
                assert(p@.subrange(0, root@.len() as int)[i as int] != root@[i as int]);
            }
            return false;
        }
        i += 1;
    }
    if plen == rlen {
        assert(p@ =~= root@);
        return true;
    }
    assert(p@.subrange(0, root@.len() as int) =~= root@);
    let c = p.get_char(rlen);
    if c == '/' {
        true
    } else {
        assert(p@ != root@) by {
            assert(p@.len() != root@.len());
        }
        false
    }
}

/// `p` rebased against `root` by prefix stripping; `p` unchanged when it
/// does not lie under `root`.
pub fn strip_path_prefix(p: &str, root: &str) -> (r: String)
    ensures
        r@ == strip_prefix_spec(p@, root@),
{
    if !has_path_prefix(p, root) {
        return p.to_owned();
    }
    let plen = p.unicode_len();
    let rlen = root.unicode_len();
    if plen == rlen {
        assert(p@ =~= root@);
        let e = String::new();
        return e;
    }
    let s = p.substring_char(rlen + 1, plen);
    assert(p@ != root@) by {
        assert(p@.len() != root@.len());
    }
    s.to_owned()
}

/// Index of the last `/` in `p`, or `None`.
pub fn last_slash(p: &str) -> (r: Option<usize>)
    ensures
        match r {
            Some(i) => last_slash_spec(p@) == Some(i as int) && i < p@.len(),
            None => last_slash_spec(p@) is None,
        },
{
    let len = p.unicode_len();
    let mut i: usize = len;
    assert(p@.subrange(0, len as int) =~= p@);
    while i > 0
        invariant
            len == p@.len(),
            0 <= i <= len,
            last_slash_spec(p@) == last_slash_spec(p@.subrange(0, i as int)),
        decreases i,
    {
        let ghost pre = p@.subrange(0, i as int);
        let c = p.get_char(i - 1);
        assert(pre[i - 1] == p@[i - 1]);
        if c == '/' {
            return Some(i - 1);
        }
        assert(pre.drop_last() =~= p@.subrange(0, i - 1));
        i -= 1;
    }
    assert(p@.subrange(0, 0) =~= Seq::<char>::empty());
    None
}

/// The directory part of `p`.
pub fn parent_of(p: &str) -> (r: String)
    ensures
        r@ == parent_spec(p@),
{
    match last_slash(p) {
        None => String::new(),
        Some(i) => {
            if i == 0 {
                let s: &str = "/";
                proof {
                    reveal_strlit("/");
                }
                assert(s@ =~= seq!['/']);
                s.to_owned()
            } else {
                p.substring_char(0, i).to_owned()
            }
        },
    }
}

/// The file-name part of `p`.
pub fn file_name_of(p: &str) -> (r: String)
    ensures
        r@ == file_name_spec(p@),
{
    match last_slash(p) {
        None => p.to_owned(),
        Some(i) => {
            let len = p.unicode_len();
            p.substring_char(i + 1, len).to_owned()
        },
    }
}

/// Index of the last `.` in `p`, or `None`.
pub fn last_dot(p: &str) -> (r: Option<usize>)
    ensures
        match r {
            Some(i) => last_dot_spec(p@) == Some(i as int) && i < p@.len(),
            None => last_dot_spec(p@) is None,
        },
{
    let len = p.unicode_len();
    let mut i: usize = len;
    assert(p@.subrange(0, len as int) =~= p@);
    while i > 0
        invariant
            len == p@.len(),
            0 <= i <= len,
            last_dot_spec(p@) == last_dot_spec(p@.subrange(0, i as int)),
        decreases i,
    {
        let ghost pre = p@.subrange(0, i as int);
        let c = p.get_char(i - 1);
        assert(pre[i - 1] == p@[i - 1]);
        if c == '.' {
            return Some(i - 1);
        }
        assert(pre.drop_last() =~= p@.subrange(0, i - 1));
        i -= 1;
    }
    assert(p@.subrange(0, 0) =~= Seq::<char>::empty());
    None
}

/// The stem of the file name of `p` (not of the whole path).
pub fn stem_of_name(n: &str) -> (r: String)
    ensures
        r@ == stem_of_name_spec(n@),
{
    match last_dot(n) {
        None => n.to_owned(),
        Some(i) => {
            if i == 0 {
                n.to_owned()
            } else {
                n.substring_char(0, i).to_owned()
            }
        },
    }
}

/// The extension of the file name `n`, or `None`.
pub fn ext_of_name(n: &str) -> (r: Option<String>)
    ensures
        match r {
            Some(e) => ext_of_name_spec(n@) == Some(e@),
            None => ext_of_name_spec(n@) is None,
        },
{
    match last_dot(n) {
        None => None,
        Some(i) => {
            if i == 0 {
                None
            } else {
                let len = n.unicode_len();
                Some(n.substring_char(i + 1, len).to_owned())
            }
        },
    }
}

/// `base` and `name` joined with a separator.
pub fn path_join(base: &str, name: &str) -> (r: String)
    ensures
        r@ == path_join_spec(base@, name@),
{
    proof {
        reveal_strlit("/");
        assert("/"@ =~= seq!['/']);
    }
    if base.unicode_len() == 0 {
        return name.to_owned();
    }
    if str_eq(base, "/") {
        let mut s = base.to_owned();
        s.append(name);
        assert(s@ =~= seq!['/'] + name@);
        assert(base@ =~= seq!['/']);
        return s;
    }
    let mut s = base.to_owned();
    s.append("/");
    s.append(name);
    assert(base@ != seq!['/']);
    assert(s@ =~= base@ + seq!['/'] + name@);
    s
}

} // verus!

verus! {

/// `s` split on `/`: the list of components, one more than the number of
/// separators; empty components stand for leading, trailing or doubled
/// separators.
pub open spec fn split_path_spec(s: Seq<char>) -> Seq<Seq<char>>
    decreases s.len(),
{
    if s.len() == 0 {
        seq![Seq::<char>::empty()]
    } else if s[0] == '/' {
        seq![Seq::<char>::empty()] + split_path_spec(s.drop_first())
    } else {
        let rest = split_path_spec(s.drop_first());
        seq![seq![s[0]] + rest[0]] + rest.drop_first()
    }
}

pub proof fn lemma_split_nonempty(s: Seq<char>)
    ensures
        split_path_spec(s).len() >= 1,
    decreases s.len(),
{
    if s.len() != 0 && s[0] != '/' {
        lemma_split_nonempty(s.drop_first());
    }
}

/// The components `cs` joined back with `/` separators.
pub open spec fn join_comps_spec(cs: Seq<Seq<char>>) -> Seq<char>
    decreases cs.len(),
{
    if cs.len() == 0 {
        Seq::<char>::empty()
    } else if cs.len() == 1 {
        cs[0]
    } else {
        cs[0] + seq!['/'] + join_comps_spec(cs.drop_first())
    }
}

pub proof fn lemma_join_push(cs: Seq<Seq<char>>, x: Seq<char>)
    ensures
        join_comps_spec(cs.push(x)) == if cs.len() == 0 {
            x
        } else {
            join_comps_spec(cs) + seq!['/'] + x
        },
    decreases cs.len(),
{
    if cs.len() == 0 {
        assert(cs.push(x) =~= seq![x]);
        assert(join_comps_spec(seq![x]) == x);
    } else {
        lemma_join_push(cs.drop_first(), x);
        assert(cs.push(x).drop_first() =~= cs.drop_first().push(x));
        assert(cs.push(x)[0] == cs[0]);
        if cs.len() == 1 {
            assert(cs.drop_first() =~= Seq::<Seq<char>>::empty());
            assert(join_comps_spec(cs) == cs[0]);
        }
    }
}

/// One step of lexical path normalization over a component list: empty and
/// `.` components are dropped, `..` pops the previous real component, stays
/// at the root of an absolute path, and is kept at the head of a relative
/// path.
pub open spec fn norm_fold(acc: Seq<Seq<char>>, comps: Seq<Seq<char>>, abs: bool) -> Seq<
    Seq<char>,
>
    decreases comps.len(),
{
    if comps.len() == 0 {
        acc
    } else {
        let c = comps[0];
        let rest = comps.drop_first();
        if c.len() == 0 || c == seq!['.'] {
            norm_fold(acc, rest, abs)
        } else if c == seq!['.', '.'] {
            if acc.len() > 0 && acc.last() != seq!['.', '.'] {
                norm_fold(acc.drop_last(), rest, abs)
            } else if abs {
                norm_fold(acc, rest, abs)
            } else {
                norm_fold(acc.push(c), rest, abs)
            }
        } else {
            norm_fold(acc.push(c), rest, abs)
        }
    }
}

/// `s` normalized lexically: `.` and empty components dropped, `..`
/// resolved against the preceding component, a leading `/` kept.
pub open spec fn normalize_spec(s: Seq<char>) -> Seq<char> {
    let abs = s.len() > 0 && s[0] == '/';
    let comps = norm_fold(Seq::<Seq<char>>::empty(), split_path_spec(s), abs);
    if abs {
        seq!['/'] + join_comps_spec(comps)
    } else {
        join_comps_spec(comps)
    }
}

/// `s` split on `/` into its components.
pub fn split_on_slash(s: &str) -> (r: Vec<String>)
    ensures
        r@.map_values(|x: String| x@) == split_path_spec(s@),
{
    let len = s.unicode_len();
    let mut done: Vec<String> = Vec::new();
    let mut cur = String::new();
    let mut i: usize = 0;
    proof {
        lemma_split_nonempty(s@);
        assert(s@.skip(0) =~= s@);
        assert(split_path_spec(s@) =~= seq![
            Seq::<char>::empty() + split_path_spec(s@)[0],
        ] + split_path_spec(s@).drop_first());
    }
    while i < len
        invariant
            len == s@.len(),
            0 <= i <= len,
            split_path_spec(s@.skip(i as int)).len() >= 1,
            split_path_spec(s@) =~= done@.map_values(|x: String| x@) + seq![
                cur@ + split_path_spec(s@.skip(i as int))[0],
            ] + split_path_spec(s@.skip(i as int)).drop_first(),
        decreases len - i,
    {
        let ghost rem = s@.skip(i as int);
        let ghost rem1 = s@.skip(i + 1);
        proof {
            assert(rem.len() > 0);
            assert(rem[0] == s@[i as int]);
            assert(rem.drop_first() =~= rem1);
            lemma_split_nonempty(rem1);
        }
        let c = s.get_char(i);
        if c == '/' {
            assert(split_path_spec(rem) =~= seq![Seq::<char>::empty()] + split_path_spec(rem1));
            let ghost old_done = done@;
            let ghost old_cur = cur@;
            done.push(cur);
            cur = String::new();
            proof {
                assert(done@.map_values(|x: String| x@) =~= old_done.map_values(|x: String| x@)
                    + seq![old_cur]);
                assert(old_cur + split_path_spec(rem)[0] =~= old_cur);
                assert(split_path_spec(s@) =~= done@.map_values(|x: String| x@) + seq![
                    cur@ + split_path_spec(rem1)[0],
                ] + split_path_spec(rem1).drop_first());
            }
        } else {
            assert(split_path_spec(rem) =~= seq![
                seq![rem[0]] + split_path_spec(rem1)[0],
            ] + split_path_spec(rem1).drop_first());
            let ghost old_cur = cur@;
            let piece = s.substring_char(i, i + 1);
            assert(piece@ =~= seq![c]);
            cur.append(piece);
            proof {
                assert(cur@ =~= old_cur + seq![c]);
                assert(cur@ + split_path_spec(rem1)[0] =~= old_cur + (seq![rem[0]]
                    + split_path_spec(rem1)[0]));
                assert(split_path_spec(s@) =~= done@.map_values(|x: String| x@) + seq![
                    cur@ + split_path_spec(rem1)[0],
                ] + split_path_spec(rem1).drop_first());
            }
        }
        i += 1;
    }
    proof {
        assert(s@.skip(len as int) =~= Seq::<char>::empty());
        assert(split_path_spec(Seq::<char>::empty()) =~= seq![Seq::<char>::empty()]);
    }
    let ghost old_done = done@;
    let ghost old_cur = cur@;
    done.push(cur);
    proof {
        assert(old_cur + Seq::<char>::empty() =~= old_cur);
        assert(done@.map_values(|x: String| x@) =~= old_done.map_values(|x: String| x@) + seq![
            old_cur,
        ]);
        assert(done@.map_values(|x: String| x@) =~= split_path_spec(s@));
    }
    done
}

/// `s` normalized lexically, as a fresh string.
pub fn normalize_path(s: &str) -> (r: String)
    ensures
        r@ == normalize_spec(s@),
{
    let comps = split_on_slash(s);
    let abs = s.unicode_len() > 0 && s.get_char(0) == '/';
    let ghost comps_view = comps@.map_values(|x: String| x@);
    let mut acc: Vec<String> = Vec::new();
    let mut i: usize = 0;
    proof {
        assert(comps_view.skip(0) =~= comps_view);
        assert(acc@.map_values(|x: String| x@) =~= Seq::<Seq<char>>::empty());
    }
    while i < comps.len()
        invariant
            0 <= i <= comps.len(),
            comps_view == comps@.map_values(|x: String| x@),
            norm_fold(Seq::<Seq<char>>::empty(), comps_view, abs) == norm_fold(
                acc@.map_values(|x: String| x@),
                comps_view.skip(i as int),
                abs,
            ),
        decreases comps.len() - i,
    {
        let ghost rem = comps_view.skip(i as int);
        let ghost accv = acc@.map_values(|x: String| x@);
        proof {
            assert(rem.len() > 0);
            assert(rem[0] == comps_view[i as int]);
            assert(comps_view[i as int] == comps@[i as int]@);
            assert(rem.drop_first() =~= comps_view.skip(i + 1));
        }
        let c = &comps[i];
        let clen = c.as_str().unicode_len();
        proof {
            reveal_strlit(".");
            reveal_strlit("..");
            assert("."@ =~= seq!['.']);
            assert(".."@ =~= seq!['.', '.']);
        }
        if clen == 0 || str_eq(c.as_str(), ".") {
            // dropped component
        } else if str_eq(c.as_str(), "..") {
            let pop = if acc.len() > 0 {
                !str_eq(acc[acc.len() - 1].as_str(), "..")
            } else {
                false
            };
            if pop {
                proof {
                    assert(accv.last() == acc@[acc@.len() - 1]@);
                }
                let ghost before = acc@;
                acc.pop();
                proof {
                    assert(acc@ =~= before.drop_last());
                    assert(acc@.map_values(|x: String| x@) =~= accv.drop_last());
                }
            } else if abs {
                proof {
                    if acc.len() > 0 {
                        assert(accv.last() == acc@[acc@.len() - 1]@);
                    }
                }
            } else {
                proof {
                    if acc.len() > 0 {
                        assert(accv.last() == acc@[acc@.len() - 1]@);
                    }
                }
                let ghost before = acc@;
                let cc = c.clone();
                acc.push(cc);
                proof {
                    assert(acc@.map_values(|x: String| x@) =~= accv.push(comps_view[i as int]));
                }
            }
        } else {
            let ghost before = acc@;
            let cc = c.clone();
            acc.push(cc);
            proof {
                assert(acc@.map_values(|x: String| x@) =~= accv.push(comps_view[i as int]));
            }
        }
        i += 1;
    }
    proof {
        assert(comps_view.skip(comps_view.len() as int) =~= Seq::<Seq<char>>::empty());
    }
    let ghost accv = acc@.map_values(|x: String| x@);
    // join the normalized components back into one string
    let mut out = if abs {
        proof {
            reveal_strlit("/");
            assert("/"@ =~= seq!['/']);
        }
        let o: String = "/".to_owned();
        o
    } else {
        String::new()
    };
    let ghost prefix = out@;
    let mut j: usize = 0;
    let mut joined = String::new();
    proof {
        assert(accv.take(0) =~= Seq::<Seq<char>>::empty());
    }
    while j < acc.len()
        invariant
            0 <= j <= acc.len(),
            accv == acc@.map_values(|x: String| x@),
            joined@ == join_comps_spec(accv.take(j as int)),
        decreases acc.len() - j,
    {
        proof {
            reveal_strlit("/");
            assert("/"@ =~= seq!['/']);
            lemma_join_push(accv.take(j as int), accv[j as int]);
            assert(accv.take(j as int).push(accv[j as int]) =~= accv.take(j + 1));
        }
        if j > 0 {
            joined.append("/");
        }
        assert(acc@[j as int]@ == accv[j as int]);
        joined.append(acc[j].as_str());
        j += 1;
    }
    proof {
        assert(accv.take(accv.len() as int) =~= accv);
    }
    out.append(joined.as_str());
    out
}

} // verus!

verus! {

/// The character views of a string list.
pub open spec fn str_views(v: Seq<String>) -> Seq<Seq<char>> {
    v.map_values(|s: String| s@)
}

/// No two entries of `v` hold the same characters.
pub open spec fn distinct_views(v: Seq<String>) -> bool {
    forall|i: int, j: int|
        0 <= i < j < v.len() ==> (#[trigger] v[i])@ != (#[trigger] v[j])@
}

/// Push `s` unless a string with the same characters is already present.
pub fn push_unique(out: &mut Vec<String>, s: String)
    ensures
        str_views(final(out)@) == (if str_views(old(out)@).contains(s@) {
            str_views(old(out)@)
        } else {
            str_views(old(out)@).push(s@)
        }),
        forall|p: Seq<char>|
            #[trigger] str_views(final(out)@).contains(p) <==> (str_views(old(out)@).contains(p)
                || p == s@),
        distinct_views(old(out)@) ==> distinct_views(final(out)@),
        str_views(old(out)@).is_prefix_of(str_views(final(out)@)),
{
    let ghost oldv = out@;
    let mut i: usize = 0;
    while i < out.len()
        invariant
            out@ == oldv,
            0 <= i <= out@.len(),
            forall|k: int| 0 <= k < i ==> oldv[k]@ != s@,
        decreases out@.len() - i,
    {
        if str_eq(out[i].as_str(), s.as_str()) {
            proof {
                assert(str_views(oldv)[i as int] == oldv[i as int]@);
                assert(str_views(out@).contains(s@));
                assert(str_views(out@).is_prefix_of(str_views(out@)));
                assert forall|p: Seq<char>| #[trigger]
                    str_views(out@).contains(p) <==> (str_views(oldv).contains(p)
                        || p == s@) by {}
            }
            return ;
        }
        i += 1;
    }
    out.push(s);
    proof {
        assert(str_views(out@) =~= str_views(oldv).push(s@));
        assert forall|p: Seq<char>| #[trigger]
            str_views(out@).contains(p) implies (str_views(oldv).contains(p) || p == s@) by {
            let k = choose|k: int| 0 <= k < str_views(out@).len() && str_views(out@)[k] == p;
            if k < oldv.len() {
                assert(str_views(oldv)[k] == p);
            }
        }
        assert forall|p: Seq<char>| (str_views(oldv).contains(p) || p == s@) implies #[trigger]
            str_views(out@).contains(p) by {
            if str_views(oldv).contains(p) {
                let k = choose|k: int|
                    0 <= k < str_views(oldv).len() && str_views(oldv)[k] == p;
                assert(str_views(out@)[k] == p);
            } else {
                assert(str_views(out@)[oldv.len() as int] == s@);
            }
        }
        if distinct_views(oldv) {
            assert forall|i2: int, j2: int|
                0 <= i2 < j2 < out@.len() implies (#[trigger] out@[i2])@
                != (#[trigger] out@[j2])@ by {
                if j2 == oldv.len() {
                    assert(oldv[i2]@ != s@);
                }
            }
        }
    }
}

/// Whether some entry of `v` holds the same characters as `s`.
pub fn contains_string(v: &Vec<String>, s: &str) -> (r: bool)
    ensures
        r == str_views(v@).contains(s@),
{
    let mut i: usize = 0;
    while i < v.len()
        invariant
            0 <= i <= v@.len(),
            forall|k: int| 0 <= k < i ==> v@[k]@ != s@,
        decreases v@.len() - i,
    {
        if str_eq(v[i].as_str(), s) {
            assert(str_views(v@)[i as int] == s@);
            return true;
        }
        i += 1;
    }
    assert forall|k: int| 0 <= k < str_views(v@).len() implies str_views(v@)[k] != s@ by {
        assert(str_views(v@)[k] == v@[k]@);
    }
    false
}

/// A fresh vector holding clones of the strings of `v`.
pub fn clone_strings(v: &Vec<String>) -> (r: Vec<String>)
    ensures
        r@ == v@,
{
    let mut r: Vec<String> = Vec::new();
    let mut i: usize = 0;
    while i < v.len()
        invariant
            0 <= i <= v@.len(),
            r@ =~= v@.take(i as int),
        decreases v@.len() - i,
    {
        r.push(v[i].clone());
        proof {
            assert(r@ =~= v@.take(i + 1));
        }
        i += 1;
    }
    proof {
        assert(v@.take(v@.len() as int) =~= v@);
    }
    r
}

} // verus!

verus! {

/// An ASCII whitespace character.
pub open spec fn is_space(c: char) -> bool {
    c == ' ' || c == '\t' || c == '\r' || c == '\n'
}

/// `s` without leading whitespace.
pub open spec fn trim_start_spec(s: Seq<char>) -> Seq<char>
    decreases s.len(),
{
    if s.len() > 0 && is_space(s[0]) {
        trim_start_spec(s.drop_first())
    } else {
        s
    }
}

/// `s` without trailing whitespace.
pub open spec fn trim_end_spec(s: Seq<char>) -> Seq<char>
    decreases s.len(),
{
    if s.len() > 0 && is_space(s[s.len() - 1]) {
        trim_end_spec(s.drop_last())
    } else {
        s
    }
}

/// `s` without leading and trailing whitespace.
pub open spec fn trim_spec(s: Seq<char>) -> Seq<char> {
    trim_end_spec(trim_start_spec(s))
}

/// Leading whitespace runs exactly to the first non-space index.
pub proof fn lemma_trim_start_at(s: Seq<char>, r: int)
    requires
        0 <= r <= s.len(),
        forall|j: int| 0 <= j < r ==> is_space(#[trigger] s[j]),
        r < s.len() ==> !is_space(s[r]),
    ensures
        trim_start_spec(s) == s.skip(r),
    decreases r,
{
    if r == 0 {
        assert(s.skip(0) =~= s);
    } else {
        assert(is_space(s[0]));
        assert forall|j: int| 0 <= j < r - 1 implies is_space(#[trigger] s.drop_first()[j]) by {
            assert(s.drop_first()[j] == s[j + 1]);
        }
        if r - 1 < s.drop_first().len() {
            assert(s.drop_first()[r - 1] == s[r]);
        }
        lemma_trim_start_at(s.drop_first(), r - 1);
        assert(s.drop_first().skip(r - 1) =~= s.skip(r));
    }
}

/// Trailing whitespace runs exactly back to the last non-space index.
pub proof fn lemma_trim_end_at(s: Seq<char>, b: int)
    requires
        0 <= b <= s.len(),
        forall|j: int| b <= j < s.len() ==> is_space(#[trigger] s[j]),
        b > 0 ==> !is_space(s[b - 1]),
    ensures
        trim_end_spec(s) == s.take(b),
    decreases s.len() - b,
{
    if b == s.len() {
        assert(s.take(b) =~= s);
    } else {
        assert(is_space(s[s.len() - 1]));
        assert forall|j: int| b <= j < s.drop_last().len() implies is_space(
            #[trigger] s.drop_last()[j],
        ) by {
            assert(s.drop_last()[j] == s[j]);
        }
        if b > 0 {
            assert(s.drop_last()[b - 1] == s[b - 1]);
        }
        lemma_trim_end_at(s.drop_last(), b);
        assert(s.drop_last().take(b) =~= s.take(b));
    }
}

/// The index of the first non-space character at or after `from`, or the
/// length when all of the rest is whitespace.
fn scan_spaces_forward(s: &str, from: usize) -> (r: usize)
    requires
        from <= s@.len(),
    ensures
        from <= r <= s@.len(),
        forall|j: int| from <= j < r ==> is_space(#[trigger] s@[j]),
        r < s@.len() ==> !is_space(s@[r as int]),
{
    let len = s.unicode_len();
    let mut a: usize = from;
    while a < len
        invariant
            len == s@.len(),
            from <= a <= len,
            forall|j: int| from <= j < a ==> is_space(#[trigger] s@[j]),
        decreases len - a,
    {
        let c = s.get_char(a);
        if !(c == ' ' || c == '\t' || c == '\r' || c == '\n') {
            return a;
        }
        a += 1;
    }
    len
}

/// The cut index before the trailing whitespace run that ends at `upto`,
/// never before `from`.
fn scan_spaces_backward(s: &str, from: usize, upto: usize) -> (r: usize)
    requires
        from <= upto <= s@.len(),
    ensures
        from <= r <= upto,
        forall|j: int| r <= j < upto ==> is_space(#[trigger] s@[j]),
        r > from ==> !is_space(s@[r - 1]),
{
    let mut b: usize = upto;
    while b > from
        invariant
            from <= b <= upto <= s@.len(),
            forall|j: int| b <= j < upto ==> is_space(#[trigger] s@[j]),
        decreases b,
    {
        let c = s.get_char(b - 1);
        if !(c == ' ' || c == '\t' || c == '\r' || c == '\n') {
            return b;
        }
        b -= 1;
    }
    from
}

/// `s` with leading and trailing ASCII whitespace removed.
pub fn trim_str(s: &str) -> (r: String)
    ensures
        r@ == trim_spec(s@),
{
    let len = s.unicode_len();
    let a = scan_spaces_forward(s, 0);
    let b = scan_spaces_backward(s, a, len);
    proof {
        lemma_trim_start_at(s@, a as int);
        let mid = s@.skip(a as int);
        assert forall|j: int| b - a <= j < mid.len() implies is_space(#[trigger] mid[j]) by {
            assert(mid[j] == s@[j + a]);
        }
        if b > a {
            assert(mid[b - a - 1] == s@[b - 1]);
        }
        lemma_trim_end_at(mid, b - a);
        assert(mid.take(b - a) =~= s@.subrange(a as int, b as int));
    }
    s.substring_char(a, b).to_owned()
}

} // verus!

verus! {

/// Strict lexicographic order on character sequences, by code point.
pub open spec fn lex_lt(a: Seq<char>, b: Seq<char>) -> bool
    decreases a.len(),
{
    if b.len() == 0 {
        false
    } else if a.len() == 0 {
        true
    } else if (a[0] as u32) != (b[0] as u32) {
        (a[0] as u32) < (b[0] as u32)
    } else {
        lex_lt(a.drop_first(), b.drop_first())
    }
}

/// Two sequences are equal or one is lexicographically smaller.
pub proof fn lemma_lex_total(a: Seq<char>, b: Seq<char>)
    ensures
        a == b || lex_lt(a, b) || lex_lt(b, a),
    decreases a.len(),
{
    if a.len() > 0 && b.len() > 0 && (a[0] as u32) == (b[0] as u32) {
        lemma_lex_total(a.drop_first(), b.drop_first());
        if a.drop_first() == b.drop_first() {
            assert(a[0] == b[0]) by {
                lemma_char_code_eq(a[0], b[0]);
            }
            assert(a.len() == b.len());
            assert forall|i: int| 0 <= i < a.len() implies a[i] == b[i] by {
                if i > 0 {
                    assert(a.drop_first()[i - 1] == a[i]);
                    assert(b.drop_first()[i - 1] == b[i]);
                }
            }
            assert(a =~= b);
        }
    } else if a.len() == 0 && b.len() == 0 {
        assert(a =~= b);
    }
}

/// Characters with one code point are one character.
pub proof fn lemma_char_code_eq(a: char, b: char)
    requires
        (a as u32) == (b as u32),
    ensures
        a == b,
{
}

/// Lexicographic order is transitive.
pub proof fn lemma_lex_trans(a: Seq<char>, b: Seq<char>, c: Seq<char>)
    requires
        lex_lt(a, b),
        lex_lt(b, c),
    ensures
        lex_lt(a, c),
    decreases a.len() + b.len() + c.len(),
{
    if a.len() == 0 {
    } else {
        // b is nonempty since lex_lt(a, b) holds with a nonempty, and c is
        // nonempty since lex_lt(b, c) holds
        if (a[0] as u32) == (b[0] as u32) && (b[0] as u32) == (c[0] as u32) {
            lemma_lex_trans(a.drop_first(), b.drop_first(), c.drop_first());
        }
    }
}

/// Nothing orders strictly before itself.
pub proof fn lemma_lex_irrefl(a: Seq<char>)
    ensures
        !lex_lt(a, a),
    decreases a.len(),
{
    if a.len() > 0 {
        lemma_lex_irrefl(a.drop_first());
    }
}

/// Whether `a` orders strictly before `b`.
pub fn str_lex_lt(a: &str, b: &str) -> (r: bool)
    ensures
        r == lex_lt(a@, b@),
{
    let alen = a.unicode_len();
    let blen = b.unicode_len();
    let min = if alen < blen {
        alen
    } else {
        blen
    };
    let mut i: usize = 0;
    proof {
        assert(a@.skip(0) =~= a@);
        assert(b@.skip(0) =~= b@);
    }
    while i < min
        invariant
            alen == a@.len(),
            blen == b@.len(),
            min == if alen < blen {
                alen
            } else {
                blen
            },
            0 <= i <= min,
            lex_lt(a@, b@) == lex_lt(a@.skip(i as int), b@.skip(i as int)),
        decreases min - i,
    {
        let ghost ra = a@.skip(i as int);
        let ghost rb = b@.skip(i as int);
        proof {
            assert(ra[0] == a@[i as int]);
            assert(rb[0] == b@[i as int]);
            assert(ra.drop_first() =~= a@.skip(i + 1));
            assert(rb.drop_first() =~= b@.skip(i + 1));
        }
        let ca = a.get_char(i);
        let cb = b.get_char(i);
        if (ca as u32) != (cb as u32) {
            return (ca as u32) < (cb as u32);
        }
        i += 1;
    }
    proof {
        let ra = a@.skip(min as int);
        let rb = b@.skip(min as int);
        if alen < blen {
            assert(ra =~= Seq::<char>::empty());
            assert(rb.len() > 0);
        } else if blen < alen {
            assert(rb =~= Seq::<char>::empty());
        } else {
            assert(ra =~= Seq::<char>::empty());
            assert(rb =~= Seq::<char>::empty());
        }
    }
    alen < blen
}

/// `x` inserted into a sorted, duplicate-free sequence: dropped when
/// already present, otherwise placed before the first larger entry.
pub open spec fn insert_lex(s: Seq<Seq<char>>, x: Seq<char>) -> Seq<Seq<char>>
    decreases s.len(),
{
    if s.len() == 0 {
        seq![x]
    } else if x == s[0] {
        s
    } else if lex_lt(x, s[0]) {
        seq![x] + s
    } else {
        seq![s[0]] + insert_lex(s.drop_first(), x)
    }
}

/// The sorted, deduplicated form of `s`, by left-to-right insertion.
pub open spec fn sort_lex_spec(s: Seq<Seq<char>>) -> Seq<Seq<char>>
    decreases s.len(),
{
    if s.len() == 0 {
        s
    } else {
        insert_lex(sort_lex_spec(s.drop_last()), s.last())
    }
}

/// The views of `v` are sorted lexicographically.
pub open spec fn sorted_lex(v: Seq<String>) -> bool {
    forall|a: int, b: int|
        0 <= a < b < v.len() ==> ((#[trigger] v[a])@ == (#[trigger] v[b])@ || lex_lt(v[a]@, v[b]@))
}

/// Insert `s` into a sorted list without duplicates, keeping it sorted;
/// a string with the same characters is dropped.
fn insert_sorted_unique(v: &mut Vec<String>, s: String)
    requires
        sorted_lex(old(v)@),
        distinct_views(old(v)@),
    ensures
        sorted_lex(final(v)@),
        distinct_views(final(v)@),
        str_views(final(v)@) == insert_lex(str_views(old(v)@), s@),
        forall|p: Seq<char>|
            #[trigger] str_views(final(v)@).contains(p) <==> (str_views(old(v)@).contains(p) || p
                == s@),
{
    let ghost v0 = v@;
    let mut j: usize = 0;
    proof {
        assert(str_views(v0).skip(0) =~= str_views(v0));
        assert(str_views(v0).take(0) + insert_lex(str_views(v0).skip(0), s@) =~= insert_lex(
            str_views(v0),
            s@,
        ));
    }
    while j < v.len()
        invariant
            v@ == v0,
            v0 == old(v)@,
            sorted_lex(v0),
            distinct_views(v0),
            0 <= j <= v0.len(),
            forall|k: int| 0 <= k < j ==> lex_lt((#[trigger] v0[k])@, s@),
            insert_lex(str_views(v0), s@) == str_views(v0).take(j as int) + insert_lex(
                str_views(v0).skip(j as int),
                s@,
            ),
        decreases v0.len() - j,
    {
        proof {
            assert(str_views(v0).skip(j as int)[0] == str_views(v0)[j as int]);
            assert(str_views(v0)[j as int] == v0[j as int]@);
            assert(str_views(v0).skip(j as int).drop_first() =~= str_views(v0).skip(j + 1));
        }
        if str_eq(v[j].as_str(), s.as_str()) {
            proof {
                assert(str_views(v0)[j as int] == v0[j as int]@);
                assert(str_views(v0).contains(s@));
                assert(insert_lex(str_views(v0).skip(j as int), s@) =~= str_views(v0).skip(
                    j as int,
                ));
                assert(str_views(v0).take(j as int) + str_views(v0).skip(j as int) =~= str_views(
                    v0,
                ));
            }
            return ;
        }
        if !str_lex_lt(v[j].as_str(), s.as_str()) {
            proof {
                lemma_lex_total(v0[j as int]@, s@);
                assert(lex_lt(s@, v0[j as int]@));
            }
            let ghost jj = j as int;
            proof {
                lemma_lex_total(v0[jj]@, s@);
                assert(lex_lt(s@, v0[jj]@));
                assert(insert_lex(str_views(v0).skip(jj), s@) =~= seq![s@] + str_views(v0).skip(
                    jj,
                ));
            }
            v.insert(j, s);
            proof {
                assert(str_views(v@) =~= str_views(v0).take(jj) + (seq![s@] + str_views(v0).skip(
                    jj,
                )));
                assert(v@ =~= v0.take(jj).push(s) + v0.skip(jj));
                assert forall|x: int|
                    0 <= x < v@.len() implies v@[x] == (if x < jj {
                    v0[x]
                } else if x == jj {
                    s
                } else {
                    v0[x - 1]
                }) by {}
                assert forall|a: int, b: int|
                    0 <= a < b < v@.len() implies ((#[trigger] v@[a])@ == (#[trigger] v@[b])@
                    || lex_lt(v@[a]@, v@[b]@)) by {
                    if a < jj && b == jj {
                        assert(lex_lt(v0[a]@, s@));
                    } else if a == jj && b > jj {
                        if lex_lt(v0[jj]@, v0[b - 1]@) {
                            lemma_lex_trans(s@, v0[jj]@, v0[b - 1]@);
                        }
                    } else if a < jj && b > jj {
                    } else if a > jj && b > jj {
                    }
                }
                assert forall|a: int, b: int|
                    0 <= a < b < v@.len() implies (#[trigger] v@[a])@ != (#[trigger] v@[b])@ by {
                    if a < jj && b == jj {
                        assert(lex_lt(v0[a]@, s@));
                        if v0[a]@ == s@ {
                            lemma_lex_irrefl(s@);
                        }
                    } else if a == jj && b > jj {
                        assert(lex_lt(s@, v0[jj]@));
                        if b - 1 == jj {
                            if s@ == v0[jj]@ {
                                lemma_lex_irrefl(s@);
                            }
                        } else {
                            if v0[jj]@ == v0[b - 1]@ {
                                if s@ == v0[b - 1]@ {
                                    lemma_lex_irrefl(s@);
                                }
                            } else {
                                assert(lex_lt(v0[jj]@, v0[b - 1]@));
                                lemma_lex_trans(s@, v0[jj]@, v0[b - 1]@);
                                if s@ == v0[b - 1]@ {
                                    lemma_lex_irrefl(s@);
                                }
                            }
                        }
                    }
                }
                assert forall|p: Seq<char>| #[trigger]
                    str_views(v@).contains(p) implies (str_views(v0).contains(p) || p == s@) by {
                    let x = choose|x: int| 0 <= x < str_views(v@).len() && str_views(v@)[x] == p;
                    if x < jj {
                        assert(str_views(v0)[x] == p);
                    } else if x > jj {
                        assert(str_views(v0)[x - 1] == p);
                    }
                }
                assert forall|p: Seq<char>|
                    (str_views(v0).contains(p) || p == s@) implies #[trigger] str_views(
                    v@,
                ).contains(p) by {
                    if str_views(v0).contains(p) {
                        let x = choose|x: int|
                            0 <= x < str_views(v0).len() && str_views(v0)[x] == p;
                        if x < jj {
                            assert(str_views(v@)[x] == p);
                        } else {
                            assert(str_views(v@)[x + 1] == p);
                        }
                    } else {
                        assert(str_views(v@)[jj] == p);
                    }
                }
            }
            return ;
        }
        proof {
            let jint = j as int;
            if lex_lt(s@, v0[jint]@) {
                lemma_lex_trans(s@, v0[jint]@, s@);
                lemma_lex_irrefl(s@);
            }
            assert(insert_lex(str_views(v0).skip(jint), s@) =~= seq![str_views(v0)[jint]]
                + insert_lex(str_views(v0).skip(jint + 1), s@));
            assert(str_views(v0).take(jint) + (seq![str_views(v0)[jint]] + insert_lex(
                str_views(v0).skip(jint + 1),
                s@,
            )) =~= str_views(v0).take(jint + 1) + insert_lex(str_views(v0).skip(jint + 1), s@));
        }
        j += 1;
    }
    let ghost jj = v0.len() as int;
    proof {
        assert(str_views(v0).skip(jj) =~= Seq::<Seq<char>>::empty());
        assert(insert_lex(Seq::<Seq<char>>::empty(), s@) =~= seq![s@]);
    }
    v.push(s);
    proof {
        assert(str_views(v@) =~= str_views(v0).take(jj) + seq![s@]);
        assert(str_views(v0).take(jj) =~= str_views(v0));
        assert forall|a: int, b: int|
            0 <= a < b < v@.len() implies ((#[trigger] v@[a])@ == (#[trigger] v@[b])@ || lex_lt(
            v@[a]@,
            v@[b]@,
        )) by {
            if b == jj {
                assert(lex_lt(v0[a]@, s@));
            }
        }
        assert forall|a: int, b: int|
            0 <= a < b < v@.len() implies (#[trigger] v@[a])@ != (#[trigger] v@[b])@ by {
            if b == jj {
                assert(lex_lt(v0[a]@, s@));
                if v0[a]@ == s@ {
                    lemma_lex_irrefl(s@);
                }
            }
        }
        assert forall|p: Seq<char>| #[trigger]
            str_views(v@).contains(p) implies (str_views(v0).contains(p) || p == s@) by {
            let x = choose|x: int| 0 <= x < str_views(v@).len() && str_views(v@)[x] == p;
            if x < jj {
                assert(str_views(v0)[x] == p);
            }
        }
        assert forall|p: Seq<char>|
            (str_views(v0).contains(p) || p == s@) implies #[trigger] str_views(v@).contains(
            p,
        ) by {
            if str_views(v0).contains(p) {
                let x = choose|x: int| 0 <= x < str_views(v0).len() && str_views(v0)[x] == p;
                assert(str_views(v@)[x] == p);
            } else {
                assert(str_views(v@)[jj] == p);
            }
        }
    }
}

/// A sorted, deduplicated copy of `v`: the same strings, each once, in
/// lexicographic order.
pub fn sort_dedup(v: &Vec<String>) -> (r: Vec<String>)
    ensures
        sorted_lex(r@),
        distinct_views(r@),
        str_views(r@) == sort_lex_spec(str_views(v@)),
        forall|p: Seq<char>|
            #[trigger] str_views(r@).contains(p) <==> str_views(v@).contains(p),
{
    let mut out: Vec<String> = Vec::new();
    let mut i: usize = 0;
    proof {
        assert(str_views(v@).take(0) =~= Seq::<Seq<char>>::empty());
        assert(str_views(out@) =~= sort_lex_spec(str_views(v@).take(0)));
    }
    while i < v.len()
        invariant
            0 <= i <= v@.len(),
            sorted_lex(out@),
            distinct_views(out@),
            str_views(out@) == sort_lex_spec(str_views(v@).take(i as int)),
            forall|p: Seq<char>|
                #[trigger] str_views(out@).contains(p) <==> exists|k: int|
                    0 <= k < i && (#[trigger] v@[k])@ == p,
        decreases v@.len() - i,
    {
        proof {
            assert(str_views(v@).take(i + 1).drop_last() =~= str_views(v@).take(i as int));
            assert(str_views(v@).take(i + 1).last() == str_views(v@)[i as int]);
            assert(str_views(v@)[i as int] == v@[i as int]@);
        }
        insert_sorted_unique(&mut out, v[i].clone());
        proof {
            assert forall|p: Seq<char>| #[trigger]
                str_views(out@).contains(p) implies exists|k: int|
                0 <= k < i + 1 && (#[trigger] v@[k])@ == p by {
                if p == v@[i as int]@ {
                    assert(0 <= i < i + 1 && v@[i as int]@ == p);
                }
            }
        }
        i += 1;
    }
    proof {
        assert(str_views(v@).take(str_views(v@).len() as int) =~= str_views(v@));
        assert forall|p: Seq<char>|
            (str_views(out@).contains(p) <==> str_views(v@).contains(p)) by {
            if str_views(v@).contains(p) {
                let k = choose|k: int| 0 <= k < str_views(v@).len() && str_views(v@)[k] == p;
                assert(v@[k]@ == p);
            }
            if exists|k: int| 0 <= k < v@.len() && (#[trigger] v@[k])@ == p {
                let k = choose|k: int| 0 <= k < v@.len() && (#[trigger] v@[k])@ == p;
                assert(str_views(v@)[k] == p);
            }
        }
    }
    out
}

} // verus!

verus! {

/// Appending one string extends the set of views by its view.
pub proof fn lemma_views_push_set(v0: Seq<String>, v1: Seq<String>, s: Seq<char>)
    requires
        str_views(v1) == str_views(v0).push(s),
    ensures
        str_views(v1).to_set() == str_views(v0).to_set().insert(s),
{
    assert forall|x: Seq<char>| #[trigger]
        str_views(v1).contains(x) implies (str_views(v0).contains(x) || x == s) by {
        let k = choose|k: int| 0 <= k < str_views(v1).len() && str_views(v1)[k] == x;
        if k < str_views(v0).len() {
            assert(str_views(v0)[k] == x);
        }
    }
    assert forall|x: Seq<char>|
        (str_views(v0).contains(x) || x == s) implies #[trigger] str_views(v1).contains(x) by {
        if str_views(v0).contains(x) {
            let k = choose|k: int| 0 <= k < str_views(v0).len() && str_views(v0)[k] == x;
            assert(str_views(v1)[k] == x);
        } else {
            assert(str_views(v1)[str_views(v0).len() as int] == x);
        }
    }
    assert(str_views(v1).to_set() =~= str_views(v0).to_set().insert(s));
}

} // verus!
