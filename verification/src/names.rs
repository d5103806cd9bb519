//! Names of elements, whatever prefix a part has chosen for the namespace of
//! its markup.
//!
//! A list of aliases starts with the namespace itself and goes on with every
//! prefix that the root element binds to it. A qualified name denotes an
//! element of the namespace when it is an alias, a colon and the element's
//! local name.

use crate::bytes::{append_bytes, bytes_eq, copy_bytes, copy_range, has_prefix, starts_with, views};
use crate::xml::{attribute_views, utf8_text, Attribute, AttributeModel};
use crate::xml_util::XMLUtil;
use vstd::prelude::*;
use vstd::utf8::{encode_utf8, valid_utf8};

verus! {

/// The namespace of word-processing markup.
pub const WORDDOC_NS: &'static str = "http://schemas.openxmlformats.org/wordprocessingml/2006/main";

/// The byte `:`.
pub const COLON: u8 = 0x3a;

/// The bytes of `xmlns:`, with which the key of a prefix declaration begins.
pub open spec fn xmlns_prefix() -> Seq<u8> {
    seq![0x78u8, 0x6du8, 0x6cu8, 0x6eu8, 0x73u8, 0x3au8]
}

/// The name that `alias` gives to the element `tag`.
pub open spec fn qualified(alias: Seq<u8>, tag: Seq<u8>) -> Seq<u8> {
    alias + seq![COLON] + tag
}

/// The names that the aliases give to the element `tag`, one for each alias.
pub open spec fn qualified_names(aliases: Seq<Seq<u8>>, tag: Seq<u8>) -> Seq<Seq<u8>> {
    Seq::new(aliases.len(), |i: int| qualified(aliases[i], tag))
}

/// Whether `qname` names the element `tag` under at least one of the aliases.
pub open spec fn tag_matches(qname: Seq<u8>, aliases: Seq<Seq<u8>>, tag: Seq<u8>) -> bool {
    exists|i: int| 0 <= i < aliases.len() && qname == qualified(#[trigger] aliases[i], tag)
}

/// Whether an attribute binds a prefix to the namespace `ns`.
pub open spec fn declares_alias(attr: Option<AttributeModel>, ns: Seq<u8>) -> bool {
    attr matches Some(a) && valid_utf8(a.key) && has_prefix(a.key, xmlns_prefix()) && a.value
        == ns
}

/// The prefixes that the attributes bind to the namespace `ns`, in their order.
pub open spec fn declared_aliases(attrs: Seq<Option<AttributeModel>>, ns: Seq<u8>) -> Seq<Seq<u8>>
    decreases attrs.len(),
{
    if attrs.len() == 0 {
        Seq::empty()
    } else if declares_alias(attrs.last(), ns) {
        declared_aliases(attrs.drop_last(), ns).push(attrs.last()->0.key.skip(6))
    } else {
        declared_aliases(attrs.drop_last(), ns)
    }
}

/// Whether the first colon of `name` stands at index `i`.
pub open spec fn is_first_colon(name: Seq<u8>, i: int) -> bool {
    &&& 0 <= i < name.len()
    &&& name[i] == COLON
    &&& forall|k: int| 0 <= k < i ==> name[k] != COLON
}

/// The index of the first colon of `name`, where it has one.
pub open spec fn first_colon(name: Seq<u8>) -> Option<int> {
    if exists|i: int| is_first_colon(name, i) {
        Some(choose|i: int| is_first_colon(name, i))
    } else {
        None
    }
}

/// The prefix of a qualified name: what stands before its first colon.
pub open spec fn name_prefix(name: Seq<u8>) -> Option<Seq<u8>> {
    match first_colon(name) {
        Some(i) => Some(name.take(i)),
        None => None,
    }
}

/// The local part of a qualified name: what stands after its first colon,
/// or the whole name where it has none.
pub open spec fn local_name(name: Seq<u8>) -> Seq<u8> {
    match first_colon(name) {
        Some(i) => name.skip(i + 1),
        None => name,
    }
}

/// Finds the first colon of `name`.
pub fn find_colon(name: &[u8]) -> (res: Option<usize>)
    ensures
        match res {
            Some(i) => first_colon(name@) == Some(i as int) && is_first_colon(name@, i as int),
            None => first_colon(name@) is None,
        },
{
    let mut i: usize = 0;
    while i < name.len()
        invariant
            i <= name.len(),
            forall|k: int| 0 <= k < i ==> name@[k] != COLON,
        decreases name.len() - i,
    {
        if name[i] == COLON {
            assert(is_first_colon(name@, i as int));
            let ghost chosen = choose|k: int| is_first_colon(name@, k);
            assert(chosen == i) by {
                if chosen < i {
                    assert(name@[chosen] != COLON);
                } else if chosen > i {
                    assert(name@[i as int] != COLON);
                }
            }
            return Some(i);
        }
        i += 1;
    }
    assert forall|k: int| !is_first_colon(name@, k) by {
        if 0 <= k < name.len() {
            assert(name@[k] != COLON);
        }
    }
    None
}

/// The prefix of the qualified name `name`.
pub fn prefix_of(name: &[u8]) -> (res: Option<Vec<u8>>)
    ensures
        match res {
            Some(prefix) => name_prefix(name@) == Some(prefix@),
            None => name_prefix(name@) is None,
        },
{
    match find_colon(name) {
        Some(i) => {
            let prefix = copy_range(name, 0, i);
            assert(name@.subrange(0, i as int) =~= name@.take(i as int));
            Some(prefix)
        },
        None => None,
    }
}

/// The local part of the qualified name `name`.
pub fn local_of(name: &[u8]) -> (res: Vec<u8>)
    ensures
        res@ == local_name(name@),
{
    match find_colon(name) {
        Some(i) => {
            assert(is_first_colon(name@, i as int));
            assert(i < name.len());
            let local = copy_range(name, i + 1, name.len());
            assert(name@.subrange(i + 1, name.len() as int) =~= name@.skip(i + 1));
            local
        },
        None => copy_bytes(name),
    }
}

/// The list of aliases that a part starts with: the namespace alone.
pub fn seed_aliases() -> (res: Vec<Vec<u8>>)
    ensures
        views(res@) == seq![encode_utf8(WORDDOC_NS@)],
{
    let mut res: Vec<Vec<u8>> = Vec::new();
    res.push(copy_bytes(WORDDOC_NS.as_bytes()));
    assert(views(res@) =~= seq![encode_utf8(WORDDOC_NS@)]);
    res
}

impl XMLUtil {
    /// Appends to `nslist`, which holds the namespace alone, every prefix that
    /// the attributes of the root element bind to it.
    pub fn read_namespaces(attrs: &Vec<Option<Attribute>>, nslist: &mut Vec<Vec<u8>>)
        requires
            old(nslist).len() == 1,
        ensures
            views(final(nslist)@) == views(old(nslist)@) + declared_aliases(
                attribute_views(attrs@),
                old(nslist)@[0]@,
            ),
    {
        let initial_namespace = copy_bytes(nslist[0].as_slice());
        let prefix: [u8; 6] = [0x78, 0x6d, 0x6c, 0x6e, 0x73, 0x3a];
        assert(prefix@ =~= xmlns_prefix());
        let ghost all = attribute_views(attrs@);
        let ghost ns = initial_namespace@;
        let mut i: usize = 0;
        assert(all.take(0) =~= Seq::<Option<AttributeModel>>::empty());
        assert(views(nslist@) =~= views(old(nslist)@) + declared_aliases(all.take(0), ns));
        while i < attrs.len()
            invariant
                i <= attrs.len(),
                all == attribute_views(attrs@),
                ns == initial_namespace@,
                ns == old(nslist)@[0]@,
                prefix@ == xmlns_prefix(),
                views(nslist@) == views(old(nslist)@) + declared_aliases(all.take(i as int), ns),
            decreases attrs.len() - i,
        {
            let ghost before = views(nslist@);
            assert(all.take(i + 1).drop_last() =~= all.take(i as int));
            assert(all.take(i + 1).last() == all[i as int]);
            if let Some(a) = &attrs[i] {
                if utf8_text(a.key.as_slice()).is_some() {
                    if starts_with(a.key.as_slice(), prefix.as_slice()) {
                        if bytes_eq(a.value.as_slice(), initial_namespace.as_slice()) {
                            let alias = copy_range(a.key.as_slice(), 6, a.key.len());
                            assert(a.key@.subrange(6, a.key@.len() as int) =~= a.key@.skip(6));
                            nslist.push(alias);
                            assert(views(nslist@) =~= before.push(alias@));
                        }
                    }
                }
            }
            i += 1;
            assert(views(nslist@) =~= views(old(nslist)@) + declared_aliases(
                all.take(i as int),
                ns,
            ));
        }
        assert(all.take(attrs.len() as int) =~= all);
    }

    /// For each alias, the name that it gives to the element `tag`.
    pub fn nsl_to_fqnames(nsl: &Vec<Vec<u8>>, tag: &str) -> (fqnames: Vec<Vec<u8>>)
        ensures
            views(fqnames@) == qualified_names(views(nsl@), encode_utf8(tag@)),
    {
        let mut fqnames: Vec<Vec<u8>> = Vec::new();
        let mut i: usize = 0;
        while i < nsl.len()
            invariant
                i <= nsl.len(),
                views(fqnames@) == qualified_names(views(nsl@).take(i as int), encode_utf8(tag@)),
            decreases nsl.len() - i,
        {
            let mut fq = copy_bytes(nsl[i].as_slice());
            fq.push(COLON);
            append_bytes(&mut fq, tag.as_bytes());
            assert(fq@ =~= qualified(nsl@[i as int]@, encode_utf8(tag@)));
            let ghost before = views(fqnames@);
            fqnames.push(fq);
            assert(views(fqnames@) =~= before.push(fq@));
            i += 1;
            assert(views(fqnames@) =~= qualified_names(
                views(nsl@).take(i as int),
                encode_utf8(tag@),
            ));
        }
        assert(views(nsl@).take(nsl.len() as int) =~= views(nsl@));
        fqnames
    }

    /// Tells whether `qname` names the element `tag` under one of the aliases of `nslist`.
    pub fn match_tag(qname: &[u8], nslist: &Vec<Vec<u8>>, tag: &str) -> (res: bool)
        ensures
            res == tag_matches(qname@, views(nslist@), encode_utf8(tag@)),
    {
        let fqnames = Self::nsl_to_fqnames(nslist, tag);
        let ghost aliases = views(nslist@);
        let ghost local = encode_utf8(tag@);
        let mut i: usize = 0;
        assert(views(fqnames@).len() == fqnames.len());
        assert(views(nslist@).len() == nslist.len());
        while i < fqnames.len()
            invariant
                i <= fqnames.len(),
                fqnames.len() == aliases.len(),
                aliases == views(nslist@),
                local == encode_utf8(tag@),
                views(fqnames@) == qualified_names(aliases, local),
                forall|k: int| 0 <= k < i ==> qname@ != qualified(#[trigger] aliases[k], local),
            decreases fqnames.len() - i,
        {
            assert(views(fqnames@)[i as int] == fqnames@[i as int]@);
            if bytes_eq(qname, fqnames[i].as_slice()) {
                assert(qname@ == qualified(aliases[i as int], local));
                return true;
            }
            i += 1;
        }
        false
    }
}

} // verus!
