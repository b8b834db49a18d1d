//! The meta-service key of a stage: `__fd_stages/<tenant>/<stage name>`.
use vstd::prelude::*;
use vstd::utf8::*;

use crate::kvapi::{
    done_result, lemma_encode_ascii_literal, escape_bytes, joined, lemma_escape_slash_free_ascii,
    lemma_split_join, lemma_split_slash_free, lemma_unescape_escape, literal_result, next_index,
    nonempty_result, slash_free, split_segments, str_result, KeyBuilder, KeyError, KeyParser,
    SLASH,
};
use crate::tenant::{tenant_key_bytes, Tenant};

verus! {

/// The bytes of the prefix of stage keys, `__fd_stages`.
pub open spec fn stage_prefix_bytes() -> Seq<u8> {
    encode_utf8("__fd_stages"@)
}

/// The bytes of the key of the stage `name` of the tenant named `tenant`.
pub open spec fn stage_key_bytes(tenant: Seq<char>, name: Seq<char>) -> Seq<u8> {
    stage_prefix_bytes() + seq![SLASH] + escape_bytes(encode_utf8(tenant)) + seq![SLASH]
        + escape_bytes(encode_utf8(name))
}

/// Reading a tenant and a stage name from the segments `rem`, the first of
/// which has index `index`.
pub open spec fn decode_stage_segments(rem: Seq<Seq<u8>>, index: usize) -> Result<
    (Seq<char>, Seq<char>),
    KeyError,
> {
    match nonempty_result(rem, index as nat) {
        Err(e) => Err(e),
        Ok(t) => match str_result(rem.drop_first(), next_index(index) as nat) {
            Err(e) => Err(e),
            Ok(n) => Ok((t, n)),
        },
    }
}

/// What a string key, given by its bytes, reads as: the tenant name and the
/// stage name, or the first error met reading it.
pub open spec fn decode_stage_key(key: Seq<u8>) -> Result<(Seq<char>, Seq<char>), KeyError> {
    let segs = split_segments(key);
    match literal_result(segs, 0, stage_prefix_bytes()) {
        Err(e) => Err(e),
        Ok(_) => match decode_stage_segments(segs.drop_first(), 1) {
            Err(e) => Err(e),
            Ok(k) => match done_result(segs.skip(3), 3) {
                Err(e) => Err(e),
                Ok(_) => Ok(k),
            },
        },
    }
}

/// The prefix of stage keys is `__fd_stages`, byte for byte.
pub proof fn lemma_stage_prefix()
    ensures
        stage_prefix_bytes() == seq![0x5fu8, 0x5f, 0x66, 0x64, 0x5f, 0x73, 0x74, 0x61, 0x67, 0x65, 0x73],
        slash_free(stage_prefix_bytes()),
        stage_prefix_bytes().len() > 0,
{
    reveal_strlit("__fd_stages");
    lemma_encode_ascii_literal(
        "__fd_stages"@,
        seq![0x5fu8, 0x5f, 0x66, 0x64, 0x5f, 0x73, 0x74, 0x61, 0x67, 0x65, 0x73],
    );
}

/// The meta-service key of a stage.
#[derive(Debug, Clone, PartialEq, Eq, Hash)]
pub struct StageIdent {
    pub tenant: Tenant,
    pub name: String,
}

impl StageIdent {
    /// The stage `name` of `tenant`.
    pub fn new(tenant: Tenant, name: &str) -> (r: StageIdent)
        ensures
            r.tenant == tenant,
            r.name@ == name@,
    {
        StageIdent { tenant, name: name.to_owned() }
    }

    /// The tenant that owns the stage.
    pub fn tenant(&self) -> (r: &Tenant)
        ensures
            *r == self.tenant,
    {
        &self.tenant
    }

    /// The name of the tenant that owns the stage.
    pub fn tenant_name(&self) -> (r: &str)
        ensures
            r@ == self.tenant.name(),
    {
        self.tenant.tenant_name()
    }

    /// The key of the parent of a stage: the key of its tenant.
    pub fn parent(&self) -> (r: Option<String>)
        ensures
            r matches Some(s) && encode_utf8(s@) == tenant_key_bytes(self.tenant.name()),
    {
        Some(self.tenant.to_string_key())
    }

    /// Appends the stage's segments, its escaped tenant name and its escaped
    /// name, to a key.
    pub fn encode_key(&self, b: KeyBuilder) -> (r: KeyBuilder)
        ensures
            r@ == joined(
                joined(b@, escape_bytes(encode_utf8(self.tenant.name()))),
                escape_bytes(encode_utf8(self.name@)),
            ),
    {
        b.push_str(self.tenant_name()).push_str(self.name.as_str())
    }

    /// Reads a stage from the next two segments of a key: the tenant name,
    /// which must not be empty, and the stage name.
    pub fn decode_key(p: &mut KeyParser) -> (r: Result<StageIdent, KeyError>)
        ensures
            r matches Ok(k) ==> decode_stage_segments(old(p).remaining(), old(p).consumed())
                == Ok::<(Seq<char>, Seq<char>), KeyError>((k.tenant.name(), k.name@)),
            r matches Err(e) ==> decode_stage_segments(old(p).remaining(), old(p).consumed())
                == Err::<(Seq<char>, Seq<char>), KeyError>(e),
            r is Ok ==> final(p).remaining() == old(p).remaining().skip(2) && final(p).consumed()
                == next_index(next_index(old(p).consumed())),
    {
        let tenant = Tenant::decode_key(p)?;
        let ghost mid = p.remaining();
        let name = p.next_str()?;
        proof {
            assert(mid.drop_first() =~= old(p).remaining().skip(2));
        }
        Ok(StageIdent { tenant, name })
    }

    /// The string key of the stage: `__fd_stages/`, the escaped tenant name,
    /// `/` and the escaped stage name.
    pub fn to_string_key(&self) -> (s: String)
        ensures
            encode_utf8(s@) == stage_key_bytes(self.tenant.name(), self.name@),
    {
        proof {
            lemma_stage_prefix();
        }
        let b = KeyBuilder::new_prefixed("__fd_stages");
        let b = self.encode_key(b);
        b.done()
    }

    /// Reads a stage back from its string key.
    pub fn from_str_key(s: &str) -> (r: Result<StageIdent, KeyError>)
        ensures
            r matches Ok(k) ==> decode_stage_key(encode_utf8(s@)) == Ok::<
                (Seq<char>, Seq<char>),
                KeyError,
            >((k.tenant.name(), k.name@)),
            r matches Err(e) ==> decode_stage_key(encode_utf8(s@)) == Err::<
                (Seq<char>, Seq<char>),
                KeyError,
            >(e),
    {
        let ghost segs = split_segments(encode_utf8(s@));
        let mut p = KeyParser::new_prefixed(s, "__fd_stages")?;
        let k = StageIdent::decode_key(&mut p)?;
        p.done()?;
        proof {
            assert(segs.drop_first().skip(2) =~= segs.skip(3));
        }
        Ok(k)
    }
}

/// Reading a stage key back gives the tenant name and the stage name that it
/// was written from, for every stage whose tenant name is not empty.
pub proof fn lemma_stage_key_roundtrip(tenant: Seq<char>, name: Seq<char>)
    requires
        tenant.len() > 0,
    ensures
        decode_stage_key(stage_key_bytes(tenant, name)) == Ok::<(Seq<char>, Seq<char>), KeyError>(
            (tenant, name),
        ),
{
    let p = stage_prefix_bytes();
    let e1 = escape_bytes(encode_utf8(tenant));
    let e2 = escape_bytes(encode_utf8(name));
    lemma_stage_prefix();
    lemma_escape_slash_free_ascii(encode_utf8(tenant));
    lemma_escape_slash_free_ascii(encode_utf8(name));
    lemma_unescape_escape(encode_utf8(tenant));
    lemma_unescape_escape(encode_utf8(name));
    encode_utf8_valid_utf8(tenant);
    encode_utf8_valid_utf8(name);
    encode_utf8_decode_utf8(tenant);
    encode_utf8_decode_utf8(name);
    let key = stage_key_bytes(tenant, name);
    assert(key =~= p + seq![SLASH] + (e1 + seq![SLASH] + e2));
    lemma_split_join(p, e1 + seq![SLASH] + e2);
    lemma_split_join(e1, e2);
    lemma_split_slash_free(e2);
    let segs = split_segments(key);
    assert(segs =~= seq![p, e1, e2]);
    assert(segs.drop_first() =~= seq![e1, e2]);
    assert(segs.drop_first().drop_first() =~= seq![e2]);
    assert(segs.skip(3) =~= Seq::<Seq<u8>>::empty());
}

/// A string key reads as a stage only when it has exactly three segments and
/// the first is `__fd_stages`, byte for byte.
pub proof fn lemma_stage_key_prefix(key: Seq<u8>)
    ensures
        decode_stage_key(key) is Ok ==> split_segments(key).len() == 3 && split_segments(key)[0]
            == seq![0x5fu8, 0x5f, 0x66, 0x64, 0x5f, 0x73, 0x74, 0x61, 0x67, 0x65, 0x73],
{
    lemma_stage_prefix();
    let segs = split_segments(key);
    if decode_stage_key(key) is Ok {
        assert(segs.drop_first().drop_first().len() > 0);
        assert(segs.skip(3).len() == 0);
    }
}

/// Two stages with non-empty tenant names have the same key only when they
/// have the same tenant name and the same stage name.
pub proof fn lemma_stage_key_injective(t1: Seq<char>, n1: Seq<char>, t2: Seq<char>, n2: Seq<char>)
    requires
        t1.len() > 0,
        t2.len() > 0,
        stage_key_bytes(t1, n1) == stage_key_bytes(t2, n2),
    ensures
        t1 == t2,
        n1 == n2,
{
    lemma_stage_key_roundtrip(t1, n1);
    lemma_stage_key_roundtrip(t2, n2);
}

} // verus!
