//! Paths and keys as text.
//!
//! Paths use `/` as their only separator. Keys are ordered by the bytes of
//! their UTF-8 encoding, which is the order in which a snapshot lists them.

use vstd::prelude::*;
use vstd::std_specs::iter::IteratorSpec;
use vstd::string::*;
use vstd::utf8::*;

verus! {

/// How one text stands to another in the order of keys.
#[derive(Clone, Copy, Debug, PartialEq, Eq, Structural)]
pub enum Order {
    Less,
    Equal,
    Greater,
}

/// Lexicographic order on byte strings: a proper prefix comes first.
pub open spec fn bytes_lt(a: Seq<u8>, b: Seq<u8>) -> bool
    decreases a.len(),
{
    if b.len() == 0 {
        false
    } else if a.len() == 0 {
        true
    } else if a[0] != b[0] {
        a[0] < b[0]
    } else {
        bytes_lt(a.drop_first(), b.drop_first())
    }
}

/// The order of keys: that of their UTF-8 bytes.
pub open spec fn text_lt(a: Seq<char>, b: Seq<char>) -> bool {
    bytes_lt(encode_utf8(a), encode_utf8(b))
}

/// The three-way comparison that [`compare_text`] computes.
pub open spec fn text_order(a: Seq<char>, b: Seq<char>) -> Order {
    if a == b {
        Order::Equal
    } else if text_lt(a, b) {
        Order::Less
    } else {
        Order::Greater
    }
}

/// No byte string comes before itself.
pub proof fn lemma_bytes_lt_irreflexive(a: Seq<u8>)
    ensures
        !bytes_lt(a, a),
    decreases a.len(),
{
    if a.len() > 0 {
        lemma_bytes_lt_irreflexive(a.drop_first());
    }
}

/// What comes before something that comes before a third comes before the
/// third.
pub proof fn lemma_bytes_lt_transitive(a: Seq<u8>, b: Seq<u8>, c: Seq<u8>)
    requires
        bytes_lt(a, b),
        bytes_lt(b, c),
    ensures
        bytes_lt(a, c),
    decreases a.len(),
{
    if a.len() > 0 && a[0] == b[0] && b[0] == c[0] {
        lemma_bytes_lt_transitive(a.drop_first(), b.drop_first(), c.drop_first());
    }
}

/// Of two different byte strings one comes before the other.
pub proof fn lemma_bytes_lt_total(a: Seq<u8>, b: Seq<u8>)
    ensures
        a == b || bytes_lt(a, b) || bytes_lt(b, a),
    decreases a.len(),
{
    if a.len() == 0 || b.len() == 0 {
        if a.len() == 0 && b.len() == 0 {
            assert(a =~= b);
        }
    } else if a[0] == b[0] {
        lemma_bytes_lt_total(a.drop_first(), b.drop_first());
        if a.drop_first() == b.drop_first() {
            assert(a =~= seq![a[0]] + a.drop_first());
            assert(b =~= seq![b[0]] + b.drop_first());
        }
    }
}

/// A common prefix does not change how two byte strings compare.
pub proof fn lemma_bytes_lt_skip(a: Seq<u8>, b: Seq<u8>, i: int)
    requires
        0 <= i <= a.len(),
        i <= b.len(),
        a.subrange(0, i) == b.subrange(0, i),
    ensures
        bytes_lt(a, b) == bytes_lt(a.skip(i), b.skip(i)),
    decreases i,
{
    if i == 0 {
        assert(a.skip(0) =~= a);
        assert(b.skip(0) =~= b);
    } else {
        assert(a[0] == a.subrange(0, i)[0]);
        assert(b[0] == b.subrange(0, i)[0]);
        let a1 = a.drop_first();
        let b1 = b.drop_first();
        assert(a1.subrange(0, i - 1) =~= a.subrange(0, i).drop_first());
        assert(b1.subrange(0, i - 1) =~= b.subrange(0, i).drop_first());
        lemma_bytes_lt_skip(a1, b1, i - 1);
        assert(a1.skip(i - 1) =~= a.skip(i));
        assert(b1.skip(i - 1) =~= b.skip(i));
    }
}

/// Two texts with the same UTF-8 bytes are the same text.
pub proof fn lemma_encoding_injective(a: Seq<char>, b: Seq<char>)
    requires
        encode_utf8(a) == encode_utf8(b),
    ensures
        a == b,
{
    encode_utf8_decode_utf8(a);
    encode_utf8_decode_utf8(b);
}

/// The order of keys is a strict total order.
pub proof fn lemma_text_lt_strict_total(a: Seq<char>, b: Seq<char>, c: Seq<char>)
    ensures
        !text_lt(a, a),
        text_lt(a, b) && text_lt(b, c) ==> text_lt(a, c),
        a == b || text_lt(a, b) || text_lt(b, a),
        text_lt(a, b) ==> !text_lt(b, a),
{
    let x = encode_utf8(a);
    let y = encode_utf8(b);
    let z = encode_utf8(c);
    lemma_bytes_lt_irreflexive(x);
    if bytes_lt(x, y) && bytes_lt(y, z) {
        lemma_bytes_lt_transitive(x, y, z);
    }
    lemma_bytes_lt_total(x, y);
    if x == y {
        lemma_encoding_injective(a, b);
    }
    if bytes_lt(x, y) && bytes_lt(y, x) {
        lemma_bytes_lt_transitive(x, y, x);
    }
}

/// Compares two byte strings lexicographically.
pub fn compare_bytes(a: &[u8], b: &[u8]) -> (o: Order)
    ensures
        o == Order::Equal <==> a@ == b@,
        o == Order::Less <==> bytes_lt(a@, b@),
        o == Order::Greater <==> bytes_lt(b@, a@),
{
    let mut i: usize = 0;
    while i < a.len() && i < b.len()
        invariant
            i <= a.len(),
            i <= b.len(),
            a@.subrange(0, i as int) == b@.subrange(0, i as int),
        decreases a.len() - i,
    {
        if a[i] != b[i] {
            proof {
                lemma_bytes_lt_skip(a@, b@, i as int);
                lemma_bytes_lt_skip(b@, a@, i as int);
                assert(a@.skip(i as int)[0] == a@[i as int]);
                assert(b@.skip(i as int)[0] == b@[i as int]);
            }
            if a[i] < b[i] {
                return Order::Less;
            } else {
                return Order::Greater;
            }
        }
        assert(a@.subrange(0, i + 1) =~= a@.subrange(0, i as int).push(a@[i as int]));
        assert(b@.subrange(0, i + 1) =~= b@.subrange(0, i as int).push(b@[i as int]));
        i += 1;
    }
    proof {
        lemma_bytes_lt_skip(a@, b@, i as int);
        lemma_bytes_lt_skip(b@, a@, i as int);
        if a.len() == b.len() {
            assert(a@ =~= a@.subrange(0, i as int));
            assert(b@ =~= b@.subrange(0, i as int));
        }
    }
    if a.len() == b.len() {
        Order::Equal
    } else if a.len() < b.len() {
        Order::Less
    } else {
        Order::Greater
    }
}

/// Compares two texts in the order of keys.
pub fn compare_text(a: &str, b: &str) -> (o: Order)
    ensures
        o == text_order(a@, b@),
{
    proof {
        lemma_text_lt_strict_total(a@, b@, a@);
        if encode_utf8(a@) == encode_utf8(b@) {
            lemma_encoding_injective(a@, b@);
        }
    }
    compare_bytes(a.as_bytes(), b.as_bytes())
}

/// Whether two texts are the same.
pub fn same_text(a: &str, b: &str) -> (same: bool)
    ensures
        same == (a@ == b@),
{
    match compare_text(a, b) {
        Order::Equal => true,
        _ => false,
    }
}

/// The characters of a string, one by one.
pub fn chars_of(s: &str) -> (v: Vec<char>)
    ensures
        v@ == s@,
{
    let mut it = s.chars();
    let mut v: Vec<char> = Vec::new();
    loop
        invariant
            v@ + it.remaining() == s@,
        ensures
            v@ == s@,
        decreases s@.len() - v@.len(),
    {
        let ghost before = it.remaining();
        match it.next() {
            Some(c) => {
                v.push(c);
                assert(v@ + it.remaining() =~= s@);
            },
            None => {
                assert(v@ + before =~= v@);
                break ;
            },
        }
    }
    v
}

/// A path is absolute when it begins with the separator.
pub open spec fn is_absolute(path: Seq<char>) -> bool {
    path.len() > 0 && path[0] == '/'
}

/// A directory path with exactly the separator it needs before a child.
pub open spec fn with_separator(dir: Seq<char>) -> Seq<char> {
    if dir.len() > 0 && dir.last() == '/' {
        dir
    } else {
        dir.push('/')
    }
}

/// The key under which the entry at `path` is indexed below `root`.
///
/// The root itself is indexed under its own full path. Every other entry
/// is indexed under what follows the root and one separator, and an entry
/// that does not lie below the root has no key.
pub open spec fn spec_entry_key(root: Seq<char>, path: Seq<char>) -> Option<Seq<char>> {
    let prefix = with_separator(root);
    if path == root {
        Some(root)
    } else if prefix.len() < path.len() && path.subrange(0, prefix.len() as int) == prefix
        && path[prefix.len() as int] != '/' {
        Some(path.skip(prefix.len() as int))
    } else {
        None
    }
}

/// The path of the entry that is indexed under `key` below `root`.
pub open spec fn spec_join(root: Seq<char>, key: Seq<char>) -> Seq<char> {
    if key == root {
        root
    } else {
        with_separator(root) + key
    }
}

/// Where the base name of `path` ends: before its trailing separators.
pub open spec fn name_end(path: Seq<char>) -> nat
    decreases path.len(),
{
    if path.len() > 0 && path.last() == '/' {
        name_end(path.drop_last())
    } else {
        path.len()
    }
}

/// Where the component that ends at `end` begins.
pub open spec fn name_start(path: Seq<char>, end: nat) -> nat
    decreases end,
{
    if end > 0 && path[end - 1] != '/' {
        name_start(path, (end - 1) as nat)
    } else {
        end
    }
}

/// The last component of a path. A path made of separators alone, or an
/// empty one, is its own base name.
pub open spec fn spec_base_name(path: Seq<char>) -> Seq<char> {
    let end = name_end(path);
    if end == 0 {
        path
    } else {
        path.subrange(name_start(path, end) as int, end as int)
    }
}

/// Whether the component `..` stands at place `i` of the key.
pub open spec fn parent_step_at(key: Seq<char>, i: int) -> bool {
    &&& 0 <= i && i + 2 <= key.len()
    &&& key[i] == '.' && key[i + 1] == '.'
    &&& i == 0 || key[i - 1] == '/'
    &&& i + 2 == key.len() || key[i + 2] == '/'
}

/// Whether the path that a key names stays below the root it is joined
/// to: the key is not empty, does not begin with the separator and has no
/// component `..`.
pub open spec fn stays_below(key: Seq<char>) -> bool {
    &&& key.len() > 0
    &&& key[0] != '/'
    &&& forall|i: int| !parent_step_at(key, i)
}

/// Below an absolute root, joining a key to the root gives back the path
/// that the key was made from.
pub proof fn lemma_join_restores_path(root: Seq<char>, path: Seq<char>)
    requires
        is_absolute(root),
        spec_entry_key(root, path) is Some,
    ensures
        spec_join(root, spec_entry_key(root, path).unwrap()) == path,
{
    if path != root {
        let prefix = with_separator(root);
        let key = path.skip(prefix.len() as int);
        assert(key[0] == path[prefix.len() as int]);
        assert(key != root);
        assert(path.subrange(0, prefix.len() as int) + key =~= path);
    }
}

/// Below an absolute root, the path that a key is joined to has that key:
/// a key that stays below the root names the entry that is indexed under
/// it.
pub proof fn lemma_key_restores_key(root: Seq<char>, key: Seq<char>)
    requires
        is_absolute(root),
        key.len() > 0,
        key[0] != '/',
    ensures
        spec_entry_key(root, spec_join(root, key)) == Some(key),
{
    let prefix = with_separator(root);
    let path = prefix + key;
    assert(path.subrange(0, prefix.len() as int) =~= prefix);
    assert(path.skip(prefix.len() as int) =~= key);
    assert(path[prefix.len() as int] == key[0]);
    assert(path != root) by {
        if path.len() == root.len() {
            assert(prefix.len() + key.len() == root.len());
        }
    }
}

/// Below an absolute root, only the root is indexed under the root's path.
pub proof fn lemma_root_key_unique(root: Seq<char>, path: Seq<char>)
    requires
        is_absolute(root),
    ensures
        spec_entry_key(root, path) == Some(root) <==> path == root,
{
    if path != root && spec_entry_key(root, path) is Some {
        let prefix = with_separator(root);
        let key = path.skip(prefix.len() as int);
        assert(key[0] == path[prefix.len() as int]);
    }
}

/// Whether `path` begins with the separator.
pub fn absolute(path: &str) -> (yes: bool)
    ensures
        yes == is_absolute(path@),
{
    let p = chars_of(path);
    p.len() > 0 && p[0] == '/'
}

fn has_prefix(text: &Vec<char>, prefix: &Vec<char>) -> (yes: bool)
    requires
        prefix.len() <= text.len(),
    ensures
        yes == (text@.subrange(0, prefix.len() as int) == prefix@),
{
    let mut i: usize = 0;
    while i < prefix.len()
        invariant
            i <= prefix.len() <= text.len(),
            text@.subrange(0, i as int) == prefix@.subrange(0, i as int),
        decreases prefix.len() - i,
    {
        if text[i] != prefix[i] {
            assert(text@.subrange(0, prefix.len() as int)[i as int] != prefix@[i as int]);
            return false;
        }
        assert(text@.subrange(0, i + 1) =~= text@.subrange(0, i as int).push(text@[i as int]));
        assert(prefix@.subrange(0, i + 1) =~= prefix@.subrange(0, i as int).push(
            prefix@[i as int],
        ));
        i += 1;
    }
    assert(prefix@.subrange(0, i as int) =~= prefix@);
    true
}

/// Computes the key of the entry at `path` below `root`.
pub fn entry_key(root: &str, path: &str) -> (key: Option<String>)
    ensures
        key is Some <==> spec_entry_key(root@, path@) is Some,
        key is Some ==> key.unwrap()@ == spec_entry_key(root@, path@).unwrap(),
{
    if same_text(root, path) {
        return Some(root.to_owned());
    }
    let r = chars_of(root);
    let p = chars_of(path);
    if p.len() <= r.len() {
        return None;
    }
    let closed = r.len() > 0 && r[r.len() - 1] == '/';
    let start: usize = if closed {
        r.len()
    } else {
        r.len() + 1
    };
    if !has_prefix(&p, &r) {
        assert(path@.subrange(0, with_separator(root@).len() as int).subrange(0, r.len() as int)
            =~= path@.subrange(0, r.len() as int));
        assert(with_separator(root@).subrange(0, r.len() as int) =~= root@);
        return None;
    }
    if !closed && p[r.len()] != '/' {
        assert(with_separator(root@)[r.len() as int] == '/');
        assert(path@.subrange(0, with_separator(root@).len() as int)[r.len() as int]
            == path@[r.len() as int]);
        return None;
    }
    if start >= p.len() || p[start] == '/' {
        return None;
    }
    assert(path@.subrange(0, start as int) =~= with_separator(root@));
    let rest = path.substring_char(start, p.len());
    assert(rest@ =~= path@.skip(start as int));
    Some(rest.to_owned())
}

/// Computes the path of the entry that is indexed under `key` below `root`.
pub fn join_path(root: &str, key: &str) -> (path: String)
    ensures
        path@ == spec_join(root@, key@),
{
    let mut path = root.to_owned();
    if same_text(key, root) {
        return path;
    }
    let r = chars_of(root);
    let closed = r.len() > 0 && r[r.len() - 1] == '/';
    if !closed {
        proof {
            reveal_strlit("/");
        }
        path.append("/");
        assert(path@ =~= root@.push('/'));
    }
    path.append(key);
    path
}

/// Whether the path that `key` names stays below the root it is joined
/// to.
pub fn key_stays_below(key: &str) -> (yes: bool)
    ensures
        yes == stays_below(key@),
{
    let k = chars_of(key);
    if k.len() == 0 || k[0] == '/' {
        return false;
    }
    let last: usize = k.len() - 1;
    let mut i: usize = 0;
    while i < last
        invariant
            k@ == key@,
            last == k.len() - 1,
            forall|j: int| j < i ==> !parent_step_at(key@, j),
        decreases last - i,
    {
        if k[i] == '.' && k[i + 1] == '.' && (i == 0 || k[i - 1] == '/') && (i + 2 == k.len()
            || k[i + 2] == '/') {
            assert(parent_step_at(key@, i as int));
            return false;
        }
        i += 1;
    }
    true
}

/// Computes the last component of `path`.
pub fn base_name(path: &str) -> (name: String)
    ensures
        name@ == spec_base_name(path@),
{
    let p = chars_of(path);
    let mut end: usize = p.len();
    assert(path@.subrange(0, p.len() as int) =~= path@);
    while end > 0 && p[end - 1] == '/'
        invariant
            end <= p.len(),
            p@ == path@,
            name_end(path@) == name_end(path@.subrange(0, end as int)),
        decreases end,
    {
        assert(path@.subrange(0, end as int).drop_last() =~= path@.subrange(0, end - 1));
        end -= 1;
    }
    if end == 0 {
        return path.to_owned();
    }
    let mut start: usize = end;
    while start > 0 && p[start - 1] != '/'
        invariant
            start <= end <= p.len(),
            p@ == path@,
            name_start(path@, end as nat) == name_start(path@, start as nat),
        decreases start,
    {
        start -= 1;
    }
    path.substring_char(start, end).to_owned()
}

} // verus!
