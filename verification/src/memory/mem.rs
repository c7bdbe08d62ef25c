use vstd::prelude::*;

verus! {

/// Copies the first `n` bytes of `src` over the first `n` bytes of `dest`.
pub fn memcpy(dest: &mut Vec<u8>, src: &[u8], n: usize)
    requires
        n <= old(dest).len(),
        n <= src@.len(),
    ensures
        final(dest)@ == src@.take(n as int) + old(dest)@.skip(n as int),
{
    let mut i: usize = 0;
    while i < n
        invariant
            i <= n,
            n <= dest.len(),
            n <= src@.len(),
            dest.len() == old(dest).len(),
            forall|j: int| 0 <= j < i ==> dest@[j] == src@[j],
            forall|j: int| i <= j < dest.len() ==> dest@[j] == old(dest)@[j],
        decreases n - i,
    {
        dest.set(i, src[i]);
        i = i + 1;
    }
    proof {
        assert(dest@ =~= src@.take(n as int) + old(dest)@.skip(n as int));
    }
}

/// Sets the first `n` bytes of `dest` to the low byte of `val`.
pub fn memset(dest: &mut Vec<u8>, val: i32, n: usize)
    requires
        n <= old(dest).len(),
    ensures
        final(dest).len() == old(dest).len(),
        forall|j: int| 0 <= j < n ==> final(dest)@[j] == val as u8,
        forall|j: int| n <= j < old(dest).len() ==> final(dest)@[j] == old(dest)@[j],
{
    let b = val as u8;
    let mut i: usize = 0;
    while i < n
        invariant
            i <= n,
            n <= dest.len(),
            b == val as u8,
            dest.len() == old(dest).len(),
            forall|j: int| 0 <= j < i ==> dest@[j] == b,
            forall|j: int| i <= j < dest.len() ==> dest@[j] == old(dest)@[j],
        decreases n - i,
    {
        dest.set(i, b);
        i = i + 1;
    }
}

/// `buf` after copying `n` bytes from offset `src` to offset `dest`, as if
/// through a temporary copy (the ranges may overlap).
pub open spec fn moved(buf: Seq<u8>, dest: int, src: int, n: int) -> Seq<u8> {
    Seq::new(buf.len(), |j: int| if dest <= j < dest + n { buf[j - dest + src] } else { buf[j] })
}

/// Copies `n` bytes inside `buf` from offset `src` to offset `dest`; the two
/// ranges may overlap (copies forward when moving down, backward otherwise).
pub fn memmove(buf: &mut Vec<u8>, dest: usize, src: usize, n: usize)
    requires
        dest + n <= old(buf).len(),
        src + n <= old(buf).len(),
    ensures
        final(buf)@ == moved(old(buf)@, dest as int, src as int, n as int),
{
    let ghost old_buf = buf@;
    if dest < src {
        let mut i: usize = 0;
        while i < n
            invariant
                dest < src,
                i <= n,
                dest + n <= buf.len(),
                src + n <= buf.len(),
                buf.len() == old_buf.len(),
                forall|j: int| dest <= j < dest + i ==> buf@[j] == old_buf[j - dest + src],
                forall|j: int| 0 <= j < buf.len() && !(dest <= j < dest + i) ==> buf@[j] == old_buf[j],
            decreases n - i,
        {
            let b = buf[src + i];
            buf.set(dest + i, b);
            i = i + 1;
        }
    } else if n > 0 {
        let mut i: usize = n;
        while i > 0
            invariant
                dest >= src,
                i <= n,
                dest + n <= buf.len(),
                src + n <= buf.len(),
                buf.len() == old_buf.len(),
                forall|j: int| dest + i <= j < dest + n ==> buf@[j] == old_buf[j - dest + src],
                forall|j: int| 0 <= j < buf.len() && !(dest + i <= j < dest + n) ==> buf@[j] == old_buf[j],
            decreases i,
        {
            i = i - 1;
            let b = buf[src + i];
            buf.set(dest + i, b);
        }
    }
    proof {
        assert(buf@ =~= moved(old_buf, dest as int, src as int, n as int));
    }
}

/// Length of the zero-terminated string at the start of `s`.
pub fn strlen(s: &[u8]) -> (r: usize)
    requires
        exists|i: int| 0 <= i < s@.len() && s@[i] == 0,
    ensures
        r < s@.len(),
        s@[r as int] == 0,
        forall|j: int| 0 <= j < r ==> s@[j] != 0,
{
    let mut len: usize = 0;
    while s[len] != 0
        invariant
            len < s@.len(),
            exists|i: int| len <= i < s@.len() && s@[i] == 0,
            forall|j: int| 0 <= j < len ==> s@[j] != 0,
        decreases s@.len() - len,
    {
        len = len + 1;
    }
    len
}

/// The first `n` bytes of `a` and `b` are the same.
pub open spec fn same_prefix(a: Seq<u8>, b: Seq<u8>, n: usize) -> bool {
    a.take(n as int) == b.take(n as int)
}

proof fn lemma_prefix_differs(a: Seq<u8>, b: Seq<u8>, n: usize, i: usize)
    requires
        i < n <= a.len(),
        n <= b.len(),
        a[i as int] != b[i as int],
    ensures
        !same_prefix(a, b, n),
{
    if same_prefix(a, b, n) {
        assert(a.take(n as int)[i as int] == b.take(n as int)[i as int]);
    }
}

proof fn lemma_prefix_same(a: Seq<u8>, b: Seq<u8>, n: usize)
    requires
        n <= a.len(),
        n <= b.len(),
        forall|j: int| 0 <= j < n ==> a[j] == b[j],
    ensures
        same_prefix(a, b, n),
{
    assert(a.take(n as int) =~= b.take(n as int));
}

/// `x - y` for two bytes.
fn byte_difference(x: u8, y: u8) -> (r: i32)
    ensures
        r == x - y,
{
    x as i32 - y as i32
}

/// Compares the first `n` bytes: 0 when they are equal, otherwise the first
/// differing byte of `a` minus that of `b`.
pub fn memcmp(a: &[u8], b: &[u8], n: usize) -> (r: i32)
    requires
        n <= a@.len(),
        n <= b@.len(),
    ensures
        (r == 0) == same_prefix(a@, b@, n),
        r != 0 ==> exists|k: int|
            0 <= k < n && a@[k] != b@[k] && (forall|j: int| 0 <= j < k ==> a@[j] == b@[j]) && r
                == a@[k] - b@[k],
{
    let mut i: usize = 0;
    while i < n
        invariant
            i <= n,
            n <= a@.len(),
            n <= b@.len(),
            forall|j: int| 0 <= j < i ==> a@[j] == b@[j],
        decreases n - i,
    {
        let av = a[i];
        let bv = b[i];
        if av != bv {
            proof {
                lemma_prefix_differs(a@, b@, n, i);
            }
            return byte_difference(av, bv);
        }
        i = i + 1;
    }
    proof {
        lemma_prefix_same(a@, b@, n);
    }
    0
}

} // verus!
