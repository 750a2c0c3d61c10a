//! Package and interface names. A package has a namespace, a name and an
//! optional semantic version; an interface is named within its package. Only
//! qualified names are comparable across independently decoded graphs, so
//! they are the keys for all deduplication and conflict detection.

use vstd::prelude::*;

use crate::bytes::push_all;

verus! {

/// Mathematical form of a package name.
#[verifier::ext_equal]
pub ghost struct PkgName {
    pub ns: Seq<u8>,
    pub name: Seq<u8>,
    pub version: Option<Seq<u8>>,
}

/// A package's qualified name: namespace, short name, optional version.
pub struct PackageName {
    pub namespace: Vec<u8>,
    pub name: Vec<u8>,
    pub version: Option<Vec<u8>>,
}

impl View for PackageName {
    type V = PkgName;

    open spec fn view(&self) -> PkgName {
        PkgName {
            ns: self.namespace@,
            name: self.name@,
            version: match self.version {
                Some(v) => Some(v@),
                None => None,
            },
        }
    }
}

/// Bytes allowed in namespace, package, interface and world identifiers.
pub open spec fn ident_byte(b: u8) -> bool {
    (('a' as u8) <= b <= ('z' as u8)) || (('0' as u8) <= b <= ('9' as u8)) || b == ('-' as u8)
}

/// A non-empty run of identifier bytes.
pub open spec fn valid_ident(s: Seq<u8>) -> bool {
    s.len() > 0 && forall|i: int| 0 <= i < s.len() ==> ident_byte(s[i])
}

/// Bytes allowed in a version: identifier bytes plus '.' and '+'.
pub open spec fn version_byte(b: u8) -> bool {
    ident_byte(b) || b == ('.' as u8) || b == ('+' as u8)
}

/// A non-empty run of version bytes.
pub open spec fn valid_version(s: Seq<u8>) -> bool {
    s.len() > 0 && forall|i: int| 0 <= i < s.len() ==> version_byte(s[i])
}

/// Well-formedness of a package name.
pub open spec fn valid_pkg_name(p: PkgName) -> bool {
    &&& valid_ident(p.ns)
    &&& valid_ident(p.name)
    &&& match p.version {
        Some(v) => valid_version(v),
        None => true,
    }
}

/// The rendered qualified name of a package: `ns:name` or `ns:name@version`.
pub open spec fn pkg_qname(p: PkgName) -> Seq<u8> {
    p.ns + seq![(':' as u8)] + p.name + match p.version {
        Some(v) => seq![('@' as u8)] + v,
        None => Seq::<u8>::empty(),
    }
}

/// The rendered qualified name of an interface: `ns:name/itf` or
/// `ns:name/itf@version`.
pub open spec fn itf_qname(p: PkgName, itf: Seq<u8>) -> Seq<u8> {
    p.ns + seq![(':' as u8)] + p.name + seq![('/' as u8)] + itf + match p.version {
        Some(v) => seq![('@' as u8)] + v,
        None => Seq::<u8>::empty(),
    }
}

/// Index of the first occurrence of `b` in `s`, if any.
pub open spec fn find_byte_spec(s: Seq<u8>, b: u8) -> Option<int>
    decreases s.len(),
{
    if s.len() == 0 {
        None
    } else if s[0] == b {
        Some(0)
    } else {
        match find_byte_spec(s.drop_first(), b) {
            Some(i) => Some(i + 1),
            None => None,
        }
    }
}

/// What `find_byte_spec` returns: the first occurrence, or nothing when the
/// byte is absent.
pub proof fn lemma_find_byte_props(s: Seq<u8>, b: u8)
    ensures
        match find_byte_spec(s, b) {
            Some(i) => 0 <= i < s.len() && s[i] == b && forall|j: int| 0 <= j < i ==> s[j] != b,
            None => forall|j: int| 0 <= j < s.len() ==> s[j] != b,
        },
    decreases s.len(),
{
    if s.len() > 0 && s[0] != b {
        let t = s.drop_first();
        lemma_find_byte_props(t, b);
        match find_byte_spec(t, b) {
            Some(i) => {
                assert(find_byte_spec(s, b) == Some(i + 1));
                assert(s[i + 1] == t[i]);
                assert forall|j: int| 0 <= j < i + 1 implies s[j] != b by {
                    if j > 0 {
                        assert(s[j] == t[j - 1]);
                    }
                }
            },
            None => {
                assert forall|j: int| 0 <= j < s.len() implies s[j] != b by {
                    if j > 0 {
                        assert(s[j] == t[j - 1]);
                    }
                }
            },
        }
    }
}

/// Searching a concatenation whose first part lacks `b` finds `b` at its
/// offset in the second part.
pub proof fn lemma_find_byte_concat(s1: Seq<u8>, s2: Seq<u8>, b: u8)
    requires
        forall|j: int| 0 <= j < s1.len() ==> s1[j] != b,
    ensures
        find_byte_spec(s1 + s2, b) == match find_byte_spec(s2, b) {
            Some(i) => Some(i + s1.len()),
            None => None::<int>,
        },
    decreases s1.len(),
{
    if s1.len() == 0 {
        assert(s1 + s2 =~= s2);
    } else {
        assert((s1 + s2).drop_first() =~= s1.drop_first() + s2);
        lemma_find_byte_concat(s1.drop_first(), s2, b);
    }
}

/// Parsed form of a package qualified name.
pub open spec fn parse_pkg_qname_spec(s: Seq<u8>) -> Option<PkgName> {
    match find_byte_spec(s, (':' as u8)) {
        None => None,
        Some(c) => {
            let ns = s.subrange(0, c);
            let rest = s.subrange(c + 1, s.len() as int);
            match find_byte_spec(rest, ('@' as u8)) {
                None => if valid_ident(ns) && valid_ident(rest) {
                    Some(PkgName { ns, name: rest, version: None })
                } else {
                    None
                },
                Some(a) => {
                    let name = rest.subrange(0, a);
                    let ver = rest.subrange(a + 1, rest.len() as int);
                    if valid_ident(ns) && valid_ident(name) && valid_version(ver) {
                        Some(PkgName { ns, name, version: Some(ver) })
                    } else {
                        None
                    }
                },
            }
        },
    }
}

/// Parsed form of an interface qualified name.
pub open spec fn parse_itf_qname_spec(s: Seq<u8>) -> Option<(PkgName, Seq<u8>)> {
    match find_byte_spec(s, (':' as u8)) {
        None => None,
        Some(c) => {
            let ns = s.subrange(0, c);
            let rest = s.subrange(c + 1, s.len() as int);
            match find_byte_spec(rest, ('/' as u8)) {
                None => None,
                Some(sl) => {
                    let name = rest.subrange(0, sl);
                    let rest2 = rest.subrange(sl + 1, rest.len() as int);
                    match find_byte_spec(rest2, ('@' as u8)) {
                        None => if valid_ident(ns) && valid_ident(name) && valid_ident(rest2) {
                            Some((PkgName { ns, name, version: None }, rest2))
                        } else {
                            None
                        },
                        Some(a) => {
                            let itf = rest2.subrange(0, a);
                            let ver = rest2.subrange(a + 1, rest2.len() as int);
                            if valid_ident(ns) && valid_ident(name) && valid_ident(itf)
                                && valid_version(ver) {
                                Some((PkgName { ns, name, version: Some(ver) }, itf))
                            } else {
                                None
                            }
                        },
                    }
                },
            }
        },
    }
}

/// Rendering a valid package name and parsing it back returns the same name.
pub proof fn lemma_pkg_qname_round_trip(p: PkgName)
    requires
        valid_pkg_name(p),
    ensures
        parse_pkg_qname_spec(pkg_qname(p)) == Some(p),
{
    let s = pkg_qname(p);
    let tail = match p.version {
        Some(v) => seq![('@' as u8)] + v,
        None => Seq::<u8>::empty(),
    };
    assert(s =~= p.ns + (seq![(':' as u8)] + (p.name + tail)));
    lemma_find_byte_concat(p.ns, seq![(':' as u8)] + (p.name + tail), (':' as u8));
    assert(find_byte_spec(seq![(':' as u8)] + (p.name + tail), (':' as u8)) == Some(0int));
    assert(find_byte_spec(s, (':' as u8)) == Some(p.ns.len() as int));
    let c = p.ns.len() as int;
    assert(s.subrange(0, c) =~= p.ns);
    let rest = s.subrange(c + 1, s.len() as int);
    assert(rest =~= p.name + tail);
    match p.version {
        None => {
            assert(rest =~= p.name);
            lemma_find_byte_props(rest, ('@' as u8));
            match find_byte_spec(rest, ('@' as u8)) {
                Some(i) => {
                    assert(ident_byte(rest[i]));
                    assert(false);
                },
                None => {},
            }
        },
        Some(v) => {
            assert(rest =~= p.name + (seq![('@' as u8)] + v));
            lemma_find_byte_concat(p.name, seq![('@' as u8)] + v, ('@' as u8));
            assert(find_byte_spec(seq![('@' as u8)] + v, ('@' as u8)) == Some(0int));
            let a = p.name.len() as int;
            assert(find_byte_spec(rest, ('@' as u8)) == Some(a));
            assert(rest.subrange(0, a) =~= p.name);
            assert(rest.subrange(a + 1, rest.len() as int) =~= v);
        },
    }
}

/// Rendering a valid interface qualified name and parsing it back returns
/// the same package name and interface name.
pub proof fn lemma_itf_qname_round_trip(p: PkgName, itf: Seq<u8>)
    requires
        valid_pkg_name(p),
        valid_ident(itf),
    ensures
        parse_itf_qname_spec(itf_qname(p, itf)) == Some((p, itf)),
{
    let s = itf_qname(p, itf);
    let tail = match p.version {
        Some(v) => seq![('@' as u8)] + v,
        None => Seq::<u8>::empty(),
    };
    let after_colon = p.name + seq![('/' as u8)] + itf + tail;
    assert(s =~= p.ns + (seq![(':' as u8)] + after_colon));
    lemma_find_byte_concat(p.ns, seq![(':' as u8)] + after_colon, (':' as u8));
    assert(find_byte_spec(seq![(':' as u8)] + after_colon, (':' as u8)) == Some(0int));
    let c = p.ns.len() as int;
    assert(find_byte_spec(s, (':' as u8)) == Some(c));
    assert(s.subrange(0, c) =~= p.ns);
    let rest = s.subrange(c + 1, s.len() as int);
    assert(rest =~= p.name + (seq![('/' as u8)] + (itf + tail)));
    lemma_find_byte_concat(p.name, seq![('/' as u8)] + (itf + tail), ('/' as u8));
    assert(find_byte_spec(seq![('/' as u8)] + (itf + tail), ('/' as u8)) == Some(0int));
    let sl = p.name.len() as int;
    assert(find_byte_spec(rest, ('/' as u8)) == Some(sl));
    assert(rest.subrange(0, sl) =~= p.name);
    let rest2 = rest.subrange(sl + 1, rest.len() as int);
    assert(rest2 =~= itf + tail);
    match p.version {
        None => {
            assert(rest2 =~= itf);
            lemma_find_byte_props(rest2, ('@' as u8));
            match find_byte_spec(rest2, ('@' as u8)) {
                Some(i) => {
                    assert(ident_byte(rest2[i]));
                    assert(false);
                },
                None => {},
            }
        },
        Some(v) => {
            assert(rest2 =~= itf + (seq![('@' as u8)] + v));
            lemma_find_byte_concat(itf, seq![('@' as u8)] + v, ('@' as u8));
            assert(find_byte_spec(seq![('@' as u8)] + v, ('@' as u8)) == Some(0int));
            let a = itf.len() as int;
            assert(find_byte_spec(rest2, ('@' as u8)) == Some(a));
            assert(rest2.subrange(0, a) =~= itf);
            assert(rest2.subrange(a + 1, rest2.len() as int) =~= v);
        },
    }
}

/// A successful interface-name parse re-renders to the input bytes.
pub proof fn lemma_parse_itf_qname_renders(s: Seq<u8>)
    requires
        parse_itf_qname_spec(s) is Some,
    ensures
        itf_qname(parse_itf_qname_spec(s).unwrap().0, parse_itf_qname_spec(s).unwrap().1) == s,
{
    let c = find_byte_spec(s, (':' as u8)).unwrap();
    lemma_find_byte_props(s, (':' as u8));
    let rest = s.subrange(c + 1, s.len() as int);
    let sl = find_byte_spec(rest, ('/' as u8)).unwrap();
    lemma_find_byte_props(rest, ('/' as u8));
    let rest2 = rest.subrange(sl + 1, rest.len() as int);
    lemma_find_byte_props(rest2, ('@' as u8));
    match find_byte_spec(rest2, ('@' as u8)) {
        None => {
            let p = PkgName { ns: s.subrange(0, c), name: rest.subrange(0, sl), version: None };
            assert(rest =~= rest.subrange(0, sl) + seq![('/' as u8)] + rest2);
            assert(s =~= s.subrange(0, c) + seq![(':' as u8)] + rest);
            assert(itf_qname(p, rest2) =~= s);
        },
        Some(a) => {
            let itf = rest2.subrange(0, a);
            let ver = rest2.subrange(a + 1, rest2.len() as int);
            let p = PkgName { ns: s.subrange(0, c), name: rest.subrange(0, sl), version: Some(ver) };
            assert(rest2 =~= itf + seq![('@' as u8)] + ver);
            assert(rest =~= rest.subrange(0, sl) + seq![('/' as u8)] + rest2);
            assert(s =~= s.subrange(0, c) + seq![(':' as u8)] + rest);
            assert(itf_qname(p, itf) =~= s);
        },
    }
}

/// Returns a copy of the byte vector.
pub fn copy_bytes(v: &Vec<u8>) -> (r: Vec<u8>)
    ensures
        r@ == v@,
{
    let mut out: Vec<u8> = Vec::new();
    push_all(&mut out, v.as_slice());
    assert(out@ =~= v@);
    out
}

impl PackageName {
    /// Well-formedness of the executable package name.
    pub open spec fn wf(&self) -> bool {
        valid_pkg_name(self@)
    }

    /// Returns a copy of this package name.
    pub fn dup(&self) -> (r: PackageName)
        ensures
            r@ == self@,
    {
        let version = match &self.version {
            Some(v) => Some(copy_bytes(v)),
            None => None,
        };
        PackageName { namespace: copy_bytes(&self.namespace), name: copy_bytes(&self.name), version }
    }

    /// Renders the package's qualified name.
    pub fn render_qname(&self) -> (r: Vec<u8>)
        ensures
            r@ == pkg_qname(self@),
    {
        let mut out: Vec<u8> = Vec::new();
        push_all(&mut out, self.namespace.as_slice());
        out.push(':' as u8);
        push_all(&mut out, self.name.as_slice());
        match &self.version {
            Some(v) => {
                out.push('@' as u8);
                push_all(&mut out, v.as_slice());
            },
            None => {},
        }
        assert(out@ =~= pkg_qname(self@));
        out
    }
}

/// Renders the qualified name of an interface of a package.
pub fn qualified_itf_name(package_name: &PackageName, interface_name: &Vec<u8>) -> (r: Vec<u8>)
    ensures
        r@ == itf_qname(package_name@, interface_name@),
{
    let mut out: Vec<u8> = Vec::new();
    push_all(&mut out, package_name.namespace.as_slice());
    out.push(':' as u8);
    push_all(&mut out, package_name.name.as_slice());
    out.push('/' as u8);
    push_all(&mut out, interface_name.as_slice());
    match &package_name.version {
        Some(v) => {
            out.push('@' as u8);
            push_all(&mut out, v.as_slice());
        },
        None => {},
    }
    assert(out@ =~= itf_qname(package_name@, interface_name@));
    out
}

/// Returns the index of the first occurrence of `b` in `s`, if any.
pub fn find_byte(s: &[u8], b: u8) -> (r: Option<usize>)
    ensures
        match r {
            Some(i) => find_byte_spec(s@, b) == Some(i as int),
            None => find_byte_spec(s@, b) is None,
        },
{
    proof {
        lemma_find_byte_props(s@, b);
    }
    let mut i: usize = 0;
    while i < s.len()
        invariant
            i <= s@.len(),
            forall|j: int| 0 <= j < i ==> s@[j] != b,
            match find_byte_spec(s@, b) {
                Some(k) => 0 <= k < s@.len() && s@[k] == b && forall|j: int| 0 <= j < k ==> s@[j]
                    != b,
                None => forall|j: int| 0 <= j < s@.len() ==> s@[j] != b,
            },
        decreases s.len() - i,
    {
        if s[i] == b {
            return Some(i);
        }
        i += 1;
    }
    None
}

/// Copies the byte range `[a, b)` of `s`.
pub fn sub_vec(s: &[u8], a: usize, b: usize) -> (r: Vec<u8>)
    requires
        a <= b <= s@.len(),
    ensures
        r@ == s@.subrange(a as int, b as int),
{
    let mut out: Vec<u8> = Vec::new();
    let mut i: usize = a;
    while i < b
        invariant
            a <= i <= b <= s@.len(),
            out@ == s@.subrange(a as int, i as int),
        decreases b - i,
    {
        out.push(s[i]);
        assert(out@ =~= s@.subrange(a as int, i + 1 as int));
        i += 1;
    }
    out
}

/// Returns whether every byte of `s` is an identifier byte and `s` is
/// non-empty.
pub fn is_valid_ident(s: &[u8]) -> (r: bool)
    ensures
        r == valid_ident(s@),
{
    if s.len() == 0 {
        return false;
    }
    let mut i: usize = 0;
    while i < s.len()
        invariant
            i <= s@.len(),
            forall|j: int| 0 <= j < i ==> ident_byte(s@[j]),
        decreases s.len() - i,
    {
        let b = s[i];
        if !((('a' as u8) <= b && b <= ('z' as u8)) || (('0' as u8) <= b && b <= ('9' as u8)) || b
            == ('-' as u8)) {
            return false;
        }
        i += 1;
    }
    true
}

/// Returns whether every byte of `s` is a version byte and `s` is non-empty.
pub fn is_valid_version(s: &[u8]) -> (r: bool)
    ensures
        r == valid_version(s@),
{
    if s.len() == 0 {
        return false;
    }
    let mut i: usize = 0;
    while i < s.len()
        invariant
            i <= s@.len(),
            forall|j: int| 0 <= j < i ==> version_byte(s@[j]),
        decreases s.len() - i,
    {
        let b = s[i];
        if !((('a' as u8) <= b && b <= ('z' as u8)) || (('0' as u8) <= b && b <= ('9' as u8)) || b
            == ('-' as u8) || b == ('.' as u8) || b == ('+' as u8)) {
            return false;
        }
        i += 1;
    }
    true
}

/// Parses a package qualified name.
pub fn parse_pkg_qname(s: &[u8]) -> (r: Option<PackageName>)
    ensures
        match r {
            Some(p) => parse_pkg_qname_spec(s@) == Some(p@),
            None => parse_pkg_qname_spec(s@) is None,
        },
{
    let c = match find_byte(s, ':' as u8) {
        Some(c) => c,
        None => {
            return None;
        },
    };
    proof {
        lemma_find_byte_props(s@, (':' as u8));
    }
    let n = s.len();
    assert(c < n);
    let ns = sub_vec(s, 0, c);
    let rest = sub_vec(s, c + 1, n);
    match find_byte(rest.as_slice(), '@' as u8) {
        None => {
            if is_valid_ident(ns.as_slice()) && is_valid_ident(rest.as_slice()) {
                Some(PackageName { namespace: ns, name: rest, version: None })
            } else {
                None
            }
        },
        Some(a) => {
            proof {
                lemma_find_byte_props(rest@, ('@' as u8));
            }
            let name = sub_vec(rest.as_slice(), 0, a);
            let ver = sub_vec(rest.as_slice(), a + 1, rest.len());
            if is_valid_ident(ns.as_slice()) && is_valid_ident(name.as_slice()) && is_valid_version(
                ver.as_slice(),
            ) {
                Some(PackageName { namespace: ns, name, version: Some(ver) })
            } else {
                None
            }
        },
    }
}

/// Parses an interface qualified name into its package name and interface
/// name.
pub fn parse_itf_qname(s: &[u8]) -> (r: Option<(PackageName, Vec<u8>)>)
    ensures
        match r {
            Some(pi) => parse_itf_qname_spec(s@) == Some((pi.0@, pi.1@)),
            None => parse_itf_qname_spec(s@) is None,
        },
{
    let c = match find_byte(s, ':' as u8) {
        Some(c) => c,
        None => {
            return None;
        },
    };
    proof {
        lemma_find_byte_props(s@, (':' as u8));
    }
    let n = s.len();
    assert(c < n);
    let ns = sub_vec(s, 0, c);
    let rest = sub_vec(s, c + 1, n);
    let sl = match find_byte(rest.as_slice(), '/' as u8) {
        Some(sl) => sl,
        None => {
            return None;
        },
    };
    proof {
        lemma_find_byte_props(rest@, ('/' as u8));
    }
    let name = sub_vec(rest.as_slice(), 0, sl);
    let rest2 = sub_vec(rest.as_slice(), sl + 1, rest.len());
    match find_byte(rest2.as_slice(), '@' as u8) {
        None => {
            if is_valid_ident(ns.as_slice()) && is_valid_ident(name.as_slice()) && is_valid_ident(
                rest2.as_slice(),
            ) {
                Some((PackageName { namespace: ns, name, version: None }, rest2))
            } else {
                None
            }
        },
        Some(a) => {
            proof {
                lemma_find_byte_props(rest2@, ('@' as u8));
            }
            let itf = sub_vec(rest2.as_slice(), 0, a);
            let ver = sub_vec(rest2.as_slice(), a + 1, rest2.len());
            if is_valid_ident(ns.as_slice()) && is_valid_ident(name.as_slice()) && is_valid_ident(
                itf.as_slice(),
            ) && is_valid_version(ver.as_slice()) {
                Some((PackageName { namespace: ns, name, version: Some(ver) }, itf))
            } else {
                None
            }
        },
    }
}

} // verus!
