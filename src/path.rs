use vstd::prelude::*;
use vstd::string::*;

verus! {

/// The path with every leading and trailing `/` removed.
pub open spec fn trim(s: Seq<char>) -> Seq<char>
    decreases s.len(),
{
    if s.len() > 0 && s[0] == '/' {
        trim(s.drop_first())
    } else if s.len() > 0 && s.last() == '/' {
        trim(s.drop_last())
    } else {
        s
    }
}

/// Index of the first `/` in `s`, or its length when there is none.
pub open spec fn first_slash(s: Seq<char>) -> nat
    decreases s.len(),
{
    if s.len() == 0 || s[0] == '/' {
        0
    } else {
        1 + first_slash(s.drop_first())
    }
}

/// What a path names: `None` when no container is left after trimming,
/// otherwise the container and the key.
pub open spec fn resolve(p: Seq<char>) -> Option<(Seq<char>, Seq<char>)> {
    let t = trim(p);
    let k = first_slash(t) as int;
    if t.len() == 0 {
        None
    } else if k == t.len() {
        Some((t, Seq::<char>::empty()))
    } else {
        Some((t.subrange(0, k), trim(t.subrange(k + 1, t.len() as int))))
    }
}

/// `n` slashes.
pub open spec fn slashes(n: nat) -> Seq<char> {
    Seq::new(n, |_i: int| '/')
}

/// A container name: not empty, and holds no `/`.
pub open spec fn is_container(c: Seq<char>) -> bool {
    c.len() > 0 && forall|i: int| 0 <= i < c.len() ==> c[i] != '/'
}

/// A key as the resolver returns it: empty, or neither starting nor ending
/// with `/`.
pub open spec fn is_trimmed_key(k: Seq<char>) -> bool {
    k.len() == 0 || (k[0] != '/' && k.last() != '/')
}

/// Slashes before the container, between the container and the key, and
/// after the key do not change what a path resolves to: every such spelling
/// of a container and a key gives that container and that key.
pub proof fn lemma_redundant_slashes(container: Seq<char>, key: Seq<char>, a: nat, b: nat, c: nat)
    requires
        is_container(container),
        is_trimmed_key(key),
        key.len() > 0 ==> b > 0,
    ensures
        resolve(slashes(a) + container + slashes(b) + key + slashes(c)) == Some((container, key)),
{
    let p = slashes(a) + container + slashes(b) + key + slashes(c);
    let n = container.len() as int;
    let m = key.len() as int;
    let cb = container + slashes(b);
    if m > 0 {
        let end = a + n + b + m;
        assert(p[a as int] == container[0]);
        assert(p[end - 1] == key[m - 1]);
        lemma_trim_is(p, a as int, end);
        let t = p.subrange(a as int, end);
        assert(t =~= container + slashes(b) + key);
        assert(t[n] == '/');
        lemma_first_slash_is(t, n);
        let rest = t.subrange(n + 1, t.len() as int);
        assert(rest =~= slashes((b - 1) as nat) + key);
        assert(rest[b - 1] == key[0]);
        assert(rest[rest.len() - 1] == key[m - 1]);
        lemma_trim_is(rest, b - 1, rest.len() as int);
        assert(rest.subrange(b - 1, rest.len() as int) =~= key);
        assert(t.subrange(0, n) =~= container);
    } else {
        let end = a + n;
        assert(p[a as int] == container[0]);
        assert(p[end - 1] == container[n - 1]);
        lemma_trim_is(p, a as int, end);
        let t = p.subrange(a as int, end);
        assert(t =~= container);
        lemma_first_slash_is(t, n);
        assert(key =~= Seq::<char>::empty());
    }
}

proof fn lemma_trim_is(s: Seq<char>, i: int, j: int)
    requires
        0 <= i <= j <= s.len(),
        forall|k: int| 0 <= k < i ==> s[k] == '/',
        forall|k: int| j <= k < s.len() ==> s[k] == '/',
        i < j ==> s[i] != '/' && s[j - 1] != '/',
    ensures
        trim(s) == s.subrange(i, j),
    decreases s.len(),
{
    if s.len() > 0 && s[0] == '/' {
        if i == j {
            lemma_trim_is(s.drop_first(), 0, 0);
        } else {
            lemma_trim_is(s.drop_first(), i - 1, j - 1);
            assert(s.drop_first().subrange(i - 1, j - 1) =~= s.subrange(i, j));
        }
    } else if s.len() > 0 && s.last() == '/' {
        if i == j {
            lemma_trim_is(s.drop_last(), 0, 0);
        } else {
            lemma_trim_is(s.drop_last(), i, j);
            assert(s.drop_last().subrange(i, j) =~= s.subrange(i, j));
        }
    } else {
        if s.len() > 0 {
            assert(i == 0);
            assert(j == s.len());
        }
        assert(s.subrange(i, j) =~= s);
    }
}

proof fn lemma_first_slash_is(s: Seq<char>, k: int)
    requires
        0 <= k <= s.len(),
        forall|i: int| 0 <= i < k ==> s[i] != '/',
        k < s.len() ==> s[k] == '/',
    ensures
        first_slash(s) == k,
    decreases s.len(),
{
    if s.len() > 0 && s[0] != '/' {
        lemma_first_slash_is(s.drop_first(), k - 1);
    }
}

/// Removes every leading and trailing `/`.
fn trim_slashes(s: &str) -> (r: &str)
    ensures
        r@ == trim(s@),
        r@.len() > 0 ==> r@[0] != '/' && r@.last() != '/',
{
    let n = s.unicode_len();
    let mut i: usize = 0;
    while i < n && s.get_char(i) == '/'
        invariant
            n == s@.len(),
            i <= n,
            forall|k: int| 0 <= k < i ==> s@[k] == '/',
        decreases n - i,
    {
        i = i + 1;
    }
    let mut j: usize = n;
    while j > i && s.get_char(j - 1) == '/'
        invariant
            n == s@.len(),
            i <= j <= n,
            forall|k: int| j <= k < n ==> s@[k] == '/',
        decreases j,
    {
        j = j - 1;
    }
    proof {
        lemma_trim_is(s@, i as int, j as int);
    }
    s.substring_char(i, j)
}

/// A container (bucket) and an object key within it.
pub struct BucketAndKey {
    pub bucket: String,
    pub key: String,
}

impl BucketAndKey {
    /// Splits a path such as `/bucket/path/of/key` into `bucket` and
    /// `path/of/key`. Slashes at both ends of the path, and around the first
    /// separator, are ignored; `None` when the path names no container.
    pub fn from_str(name: &str) -> (r: Option<Self>)
        ensures
            match resolve(name@) {
                None => r is None,
                Some(p) => r is Some && r->0.bucket@ == p.0 && r->0.key@ == p.1,
            },
    {
        let t = trim_slashes(name);
        let n = t.unicode_len();
        let mut k: usize = 0;
        while k < n && t.get_char(k) != '/'
            invariant
                n == t@.len(),
                k <= n,
                forall|i: int| 0 <= i < k ==> t@[i] != '/',
            decreases n - k,
        {
            k = k + 1;
        }
        proof {
            lemma_first_slash_is(t@, k as int);
        }
        if k == 0 {
            return None;
        }
        let bucket = t.substring_char(0, k).to_owned();
        let key = if k < n {
            trim_slashes(t.substring_char(k + 1, n)).to_owned()
        } else {
            String::new()
        };
        proof {
            assert(t@.subrange(0, n as int) =~= t@);
        }
        Some(BucketAndKey { bucket, key })
    }
}

} // verus!
