//! Locating the configuration file that ships with an installation:
//! parsing the configuration listing for its first file origin, popping a
//! configuration path down to its base directory, and collecting the
//! distinct candidate locations named by the environment.

use vstd::prelude::*;

verus! {

/// The listing begins with the origin marker `file:`.
pub open spec fn has_file_prefix(s: Seq<u8>) -> bool {
    &&& s.len() >= 5
    &&& s[0] == 102
    &&& s[1] == 105
    &&& s[2] == 108
    &&& s[3] == 101
    &&& s[4] == 58
}

/// `i` is the position of the first tab after the origin marker.
pub open spec fn is_first_tab(s: Seq<u8>, i: int) -> bool {
    &&& 5 <= i < s.len()
    &&& s[i] == 9
    &&& forall|j: int| 5 <= j < i ==> s[j] != 9
}

/// The sequence with its leading double-quote bytes removed.
pub open spec fn trim_leading_quotes(s: Seq<u8>) -> Seq<u8>
    decreases s.len(),
{
    if s.len() > 0 && s.first() == 34 {
        trim_leading_quotes(s.drop_first())
    } else {
        s
    }
}

/// The sequence with its trailing double-quote bytes removed.
pub open spec fn trim_trailing_quotes(s: Seq<u8>) -> Seq<u8>
    decreases s.len(),
{
    if s.len() > 0 && s.last() == 34 {
        trim_trailing_quotes(s.drop_last())
    } else {
        s
    }
}

/// The sequence with double-quote bytes removed from both ends.
pub open spec fn trimmed_quotes(s: Seq<u8>) -> Seq<u8> {
    trim_trailing_quotes(trim_leading_quotes(s))
}

/// The first file path named by a `file:`-origin configuration listing:
/// the bytes between the opening `file:` marker and the first tab, with
/// any surrounding double quotes removed. `None` when the listing does not
/// open with the marker or no tab follows it.
pub fn first_file_from_config_with_origin(source: &Vec<u8>) -> (r: Option<Vec<u8>>)
    ensures
        r is None <==> (!has_file_prefix(source@) || forall|j: int|
            5 <= j < source@.len() ==> source@[j] != 9),
        r matches Some(v) ==> has_file_prefix(source@) && exists|i: int|
            #[trigger] is_first_tab(source@, i) && v@ == trimmed_quotes(
                source@.subrange(5, i),
            ),
{
    if source.len() < 5 {
        return None;
    }
    if source[0] != 102 || source[1] != 105 || source[2] != 108 || source[3] != 101 || source[4]
        != 58 {
        return None;
    }
    let n = source.len();
    let mut i: usize = 5;
    while i < n
        invariant
            5 <= i <= n,
            n == source@.len(),
            forall|j: int| 5 <= j < i ==> source@[j] != 9,
        decreases n - i,
    {
        if source[i] == 9 {
            let v = trimmed_range(source, 5, i);
            proof {
                assert(is_first_tab(source@, i as int));
            }
            return Some(v);
        }
        i += 1;
    }
    None
}

/// The bytes of `source[from..to]` with double quotes removed from both
/// ends.
fn trimmed_range(source: &Vec<u8>, from: usize, to: usize) -> (r: Vec<u8>)
    requires
        from <= to <= source@.len(),
    ensures
        r@ == trimmed_quotes(source@.subrange(from as int, to as int)),
{
    let ghost whole = source@.subrange(from as int, to as int);
    let mut start = from;
    while start < to && source[start] == 34
        invariant
            from <= start <= to,
            to <= source@.len(),
            trim_leading_quotes(whole) == trim_leading_quotes(
                source@.subrange(start as int, to as int),
            ),
        decreases to - start,
    {
        proof {
            assert(source@.subrange(start as int, to as int).drop_first() =~= source@.subrange(
                start as int + 1,
                to as int,
            ));
        }
        start += 1;
    }
    proof {
        assert(trim_leading_quotes(whole) == source@.subrange(start as int, to as int));
    }
    let ghost led = source@.subrange(start as int, to as int);
    let mut end = to;
    while end > start && source[end - 1] == 34
        invariant
            start <= end <= to,
            to <= source@.len(),
            trim_trailing_quotes(led) == trim_trailing_quotes(
                source@.subrange(start as int, end as int),
            ),
        decreases end - start,
    {
        proof {
            assert(source@.subrange(start as int, end as int).drop_last() =~= source@.subrange(
                start as int,
                end as int - 1,
            ));
        }
        end -= 1;
    }
    proof {
        assert(trim_trailing_quotes(led) == source@.subrange(start as int, end as int));
    }
    copy_range(source, start, end)
}

/// The bytes of `v[from..to]`, as their own vector.
fn copy_range(v: &Vec<u8>, from: usize, to: usize) -> (r: Vec<u8>)
    requires
        from <= to <= v@.len(),
    ensures
        r@ == v@.subrange(from as int, to as int),
{
    let mut out: Vec<u8> = Vec::new();
    let mut i = from;
    while i < to
        invariant
            from <= i <= to,
            to <= v@.len(),
            out@ == v@.subrange(from as int, i as int),
        decreases to - i,
    {
        out.push(v[i]);
        proof {
            assert(out@ =~= v@.subrange(from as int, i as int + 1));
        }
        i += 1;
    }
    out
}

/// The sequence with its trailing slash bytes removed.
pub open spec fn strip_trailing_slashes(s: Seq<u8>) -> Seq<u8>
    decreases s.len(),
{
    if s.len() > 0 && s.last() == 47 {
        strip_trailing_slashes(s.drop_last())
    } else {
        s
    }
}

/// The sequence with its final non-slash component removed; ends with a
/// slash, or is empty when the sequence holds no slash.
pub open spec fn drop_file_name(s: Seq<u8>) -> Seq<u8>
    decreases s.len(),
{
    if s.len() > 0 && s.last() != 47 {
        drop_file_name(s.drop_last())
    } else {
        s
    }
}

/// The path without its final component: the empty path for a bare file
/// name, the root for a first-level entry, `None` for the root itself or
/// the empty path.
pub open spec fn path_parent(s: Seq<u8>) -> Option<Seq<u8>> {
    let t = strip_trailing_slashes(s);
    if t.len() == 0 {
        None
    } else {
        let d = drop_file_name(t);
        if d.len() == 0 {
            Some(Seq::empty())
        } else {
            let e = strip_trailing_slashes(d);
            if e.len() == 0 {
                Some(seq![47u8])
            } else {
                Some(e)
            }
        }
    }
}

/// The parent directory of `path`, as [`path_parent`] prescribes.
pub fn parent_of(path: &Vec<u8>) -> (r: Option<Vec<u8>>)
    ensures
        r is None <==> path_parent(path@) is None,
        r matches Some(v) ==> path_parent(path@) == Some(v@),
{
    let n = path.len();
    proof {
        assert(path@.take(n as int) =~= path@);
    }
    let mut t_end = n;
    while t_end > 0 && path[t_end - 1] == 47
        invariant
            t_end <= n,
            n == path@.len(),
            strip_trailing_slashes(path@) == strip_trailing_slashes(path@.take(t_end as int)),
        decreases t_end,
    {
        proof {
            assert(path@.take(t_end as int).drop_last() =~= path@.take(t_end as int - 1));
        }
        t_end -= 1;
    }
    proof {
        assert(strip_trailing_slashes(path@) == path@.take(t_end as int));
    }
    if t_end == 0 {
        return None;
    }
    let mut d_end = t_end;
    while d_end > 0 && path[d_end - 1] != 47
        invariant
            d_end <= t_end,
            t_end <= n,
            n == path@.len(),
            drop_file_name(path@.take(t_end as int)) == drop_file_name(path@.take(d_end as int)),
        decreases d_end,
    {
        proof {
            assert(path@.take(d_end as int).drop_last() =~= path@.take(d_end as int - 1));
        }
        d_end -= 1;
    }
    proof {
        assert(drop_file_name(path@.take(t_end as int)) == path@.take(d_end as int));
    }
    if d_end == 0 {
        proof {
            assert(Seq::<u8>::empty() =~= path@.take(0));
        }
        return Some(Vec::new());
    }
    let mut e_end = d_end;
    while e_end > 0 && path[e_end - 1] == 47
        invariant
            e_end <= d_end,
            d_end <= n,
            n == path@.len(),
            strip_trailing_slashes(path@.take(d_end as int)) == strip_trailing_slashes(
                path@.take(e_end as int),
            ),
        decreases e_end,
    {
        proof {
            assert(path@.take(e_end as int).drop_last() =~= path@.take(e_end as int - 1));
        }
        e_end -= 1;
    }
    proof {
        assert(strip_trailing_slashes(path@.take(d_end as int)) == path@.take(e_end as int));
    }
    if e_end == 0 {
        let mut root: Vec<u8> = Vec::new();
        root.push(47);
        proof {
            assert(root@ =~= seq![47u8]);
        }
        return Some(root);
    }
    let out = copy_range(path, 0, e_end);
    proof {
        assert(path@.subrange(0, e_end as int) =~= path@.take(e_end as int));
    }
    Some(out)
}

/// The base directory of the installation, given the configuration file
/// path obtained from the installation's configuration listing: the path
/// without the configuration file's name. The path must have a parent to
/// pop.
pub fn config_to_base_path(config_path: &Vec<u8>) -> (r: Vec<u8>)
    requires
        path_parent(config_path@) is Some,
    ensures
        path_parent(config_path@) == Some(r@),
{
    match parent_of(config_path) {
        Some(v) => v,
        None => {
            proof {
                assert(false);
            }
            Vec::new()
        },
    }
}

/// Alternative installation locations to search: none on this platform.
pub fn alternative_locations() -> (r: Vec<Vec<u8>>)
    ensures
        r@.len() == 0,
{
    Vec::new()
}

/// The views of a sequence of byte vectors, in order.
pub open spec fn path_views(s: Seq<Vec<u8>>) -> Seq<Seq<u8>> {
    s.map_values(|v: Vec<u8>| v@)
}

/// Folds the candidate values left to right, appending each present value
/// not already collected.
pub open spec fn distinct_present(cs: Seq<Option<Vec<u8>>>, acc: Seq<Seq<u8>>) -> Seq<Seq<u8>>
    decreases cs.len(),
{
    if cs.len() == 0 {
        acc
    } else {
        let acc2 = match cs[0] {
            Some(v) => if acc.contains(v@) {
                acc
            } else {
                acc.push(v@)
            },
            None => acc,
        };
        distinct_present(cs.drop_first(), acc2)
    }
}

/// The distinct locations named by the environment: each present
/// candidate value once, in first-occurrence order.
pub fn alternative_locations_from_env(candidates: &Vec<Option<Vec<u8>>>) -> (r: Vec<Vec<u8>>)
    ensures
        path_views(r@) == distinct_present(candidates@, Seq::empty()),
{
    let mut out: Vec<Vec<u8>> = Vec::new();
    let n = candidates.len();
    let mut i: usize = 0;
    proof {
        assert(candidates@.skip(0) =~= candidates@);
        assert(path_views(out@) =~= Seq::<Seq<u8>>::empty());
    }
    while i < n
        invariant
            i <= n,
            n == candidates@.len(),
            distinct_present(candidates@, Seq::empty()) == distinct_present(
                candidates@.skip(i as int),
                path_views(out@),
            ),
        decreases n - i,
    {
        let ghost acc = path_views(out@);
        proof {
            assert(candidates@.skip(i as int)[0] == candidates@[i as int]);
            assert(candidates@.skip(i as int).drop_first() =~= candidates@.skip(i as int + 1));
        }
        match &candidates[i] {
            Some(v) => {
                if !contains_bytes(&out, v) {
                    out.push(copy_range(v, 0, v.len()));
                    proof {
                        assert(v@.subrange(0, v@.len() as int) =~= v@);
                        assert(path_views(out@) =~= acc.push(v@));
                    }
                }
            },
            None => {},
        }
        i += 1;
    }
    proof {
        assert(candidates@.skip(n as int) =~= Seq::<Option<Vec<u8>>>::empty());
    }
    out
}

/// Byte-exact equality of two byte vectors.
fn bytes_eq(a: &Vec<u8>, b: &Vec<u8>) -> (r: bool)
    ensures
        r == (a@ == b@),
{
    if a.len() != b.len() {
        assert(a@.len() != b@.len());
        return false;
    }
    let n = a.len();
    let mut i: usize = 0;
    while i < n
        invariant
            n == a@.len(),
            n == b@.len(),
            i <= n,
            forall|j: int| 0 <= j < i ==> a@[j] == b@[j],
        decreases n - i,
    {
        if a[i] != b[i] {
            return false;
        }
        i += 1;
    }
    assert(a@ =~= b@);
    true
}

/// Whether any collected vector holds the same bytes as `x`.
fn contains_bytes(v: &Vec<Vec<u8>>, x: &Vec<u8>) -> (r: bool)
    ensures
        r == path_views(v@).contains(x@),
{
    let n = v.len();
    let mut i: usize = 0;
    while i < n
        invariant
            n == v@.len(),
            i <= n,
            forall|j: int| 0 <= j < i ==> (#[trigger] v@[j])@ != x@,
        decreases n - i,
    {
        if bytes_eq(&v[i], x) {
            proof {
                assert(path_views(v@)[i as int] == v@[i as int]@);
            }
            return true;
        }
        i += 1;
    }
    proof {
        assert forall|k: int| 0 <= k < path_views(v@).len() implies path_views(v@)[k] != x@ by {
            assert(path_views(v@)[k] == v@[k]@);
        }
    }
    false
}

} // verus!
