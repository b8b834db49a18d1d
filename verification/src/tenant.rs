//! The tenant that owns a resource of the meta-service, and its key.
use vstd::prelude::*;
use vstd::utf8::*;

use crate::kvapi::{
    lemma_encode_ascii_literal, escape_bytes, joined, next_index, nonempty_result, slash_free, KeyBuilder,
    KeyError, KeyParser, SLASH,
};

verus! {

/// The bytes of the prefix of tenant keys, `__fd_tenant`.
pub open spec fn tenant_prefix_bytes() -> Seq<u8> {
    encode_utf8("__fd_tenant"@)
}

/// The bytes of the key of the tenant named `name`.
pub open spec fn tenant_key_bytes(name: Seq<char>) -> Seq<u8> {
    tenant_prefix_bytes() + seq![SLASH] + escape_bytes(encode_utf8(name))
}

/// The prefix of tenant keys is `__fd_tenant`, byte for byte.
pub proof fn lemma_tenant_prefix()
    ensures
        tenant_prefix_bytes() == seq![0x5fu8, 0x5f, 0x66, 0x64, 0x5f, 0x74, 0x65, 0x6e, 0x61, 0x6e, 0x74],
        slash_free(tenant_prefix_bytes()),
        tenant_prefix_bytes().len() > 0,
{
    reveal_strlit("__fd_tenant");
    lemma_encode_ascii_literal(
        "__fd_tenant"@,
        seq![0x5fu8, 0x5f, 0x66, 0x64, 0x5f, 0x74, 0x65, 0x6e, 0x61, 0x6e, 0x74],
    );
}

/// A tenant, known by its name.
#[derive(Debug, Clone, PartialEq, Eq, Hash)]
pub struct Tenant {
    tenant: String,
}

impl Tenant {
    /// The tenant's name.
    pub closed spec fn name(&self) -> Seq<char> {
        self.tenant@
    }

    /// The tenant named `tenant`.
    pub fn new(tenant: &str) -> (t: Tenant)
        ensures
            t.name() == tenant@,
    {
        Tenant { tenant: tenant.to_owned() }
    }

    /// The tenant's name.
    pub fn tenant_name(&self) -> (r: &str)
        ensures
            r@ == self.name(),
    {
        self.tenant.as_str()
    }

    /// Appends the tenant's segment, its escaped name, to a key.
    pub fn encode_key(&self, b: KeyBuilder) -> (r: KeyBuilder)
        ensures
            r@ == joined(b@, escape_bytes(encode_utf8(self.name()))),
    {
        b.push_str(self.tenant_name())
    }

    /// Reads a tenant from the next segment of a key, which must not be empty.
    pub fn decode_key(p: &mut KeyParser) -> (r: Result<Tenant, KeyError>)
        ensures
            r matches Ok(t) ==> nonempty_result(old(p).remaining(), old(p).consumed() as nat)
                == Ok::<Seq<char>, KeyError>(t.name()),
            r matches Err(e) ==> nonempty_result(old(p).remaining(), old(p).consumed() as nat)
                == Err::<Seq<char>, KeyError>(e),
            r is Ok ==> final(p).remaining() == old(p).remaining().drop_first() && final(p).consumed()
                == next_index(old(p).consumed()),
    {
        let tenant = p.next_nonempty()?;
        Ok(Tenant { tenant })
    }

    /// The key of this tenant: `__fd_tenant/` and its escaped name.
    pub fn to_string_key(&self) -> (s: String)
        ensures
            encode_utf8(s@) == tenant_key_bytes(self.name()),
    {
        proof {
            lemma_tenant_prefix();
        }
        let b = KeyBuilder::new_prefixed("__fd_tenant");
        let b = self.encode_key(b);
        b.done()
    }
}

} // verus!
