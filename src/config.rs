//! Settings of the updater, and the host name it manages.
use crate::text::same_text;
use vstd::prelude::*;

verus! {

/// Settings read at start-up.
pub struct Config {
    /// The domain whose records are managed.
    pub domain_name: String,
    /// Key for the DNS provider's API.
    pub api_key: String,
    /// The host: `@` for the domain itself, else a label under it.
    pub record_name: String,
    /// Seconds between cycles; zero runs a single cycle.
    pub interval: u64,
    /// Whether records may be created and deleted.
    pub manage_records: bool,
}

/// Fully qualified name of the host `record_name` under `domain_name`.
pub open spec fn qualified(record_name: Seq<char>, domain_name: Seq<char>) -> Seq<char> {
    if record_name == seq!['@'] {
        domain_name + seq!['.']
    } else {
        record_name + seq!['.'] + domain_name
    }
}

/// The fully qualified name: the domain with a final dot for `@`, else the
/// label, a dot and the domain.
pub fn qualified_name(record_name: &str, domain_name: &str) -> (r: String)
    ensures
        r@ == qualified(record_name@, domain_name@),
{
    proof {
        reveal_strlit("@");
        reveal_strlit(".");
    }
    assert("@"@ =~= seq!['@']);
    assert("."@ =~= seq!['.']);
    if same_text(record_name, "@") {
        let mut r = domain_name.to_owned();
        r.append(".");
        assert(r@ =~= qualified(record_name@, domain_name@));
        r
    } else {
        let mut r = record_name.to_owned();
        r.append(".");
        r.append(domain_name);
        assert(r@ =~= qualified(record_name@, domain_name@));
        r
    }
}

impl Config {
    /// Replaces the host with its fully qualified name.
    pub fn qualify_record_name(&mut self)
        ensures
            final(self).record_name@ == qualified(old(self).record_name@, old(self).domain_name@),
            final(self).domain_name == old(self).domain_name,
            final(self).api_key == old(self).api_key,
            final(self).interval == old(self).interval,
            final(self).manage_records == old(self).manage_records,
    {
        let q = qualified_name(self.record_name.as_str(), self.domain_name.as_str());
        self.record_name = q;
    }
}

} // verus!
