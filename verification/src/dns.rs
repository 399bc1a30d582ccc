//! DNS resolver settings and the resolver configuration texts built from
//! them.
//!
//! Settings come from a configuration file, supplemented from a DHCP
//! lease where the file leaves them unset; reading either is the
//! surrounding application's work, as is shuffling the name-server order
//! before writing. The merge rule and the exact texts written to the
//! resolver configuration files are fixed here.

use crate::text::push_char;
use vstd::prelude::*;
use vstd::string::StringExecFns;

verus! {

/// Resolver settings: the name servers to query and the search domains
/// to complete bare names with; either may be unset.
#[derive(Debug, PartialEq)]
pub struct DnsSettings {
    pub nameservers: Option<Vec<String>>,
    pub search: Option<Vec<String>>,
}

impl Default for DnsSettings {
    /// Settings with nothing set.
    fn default() -> (r: DnsSettings)
        ensures
            r.nameservers is None,
            r.search is None,
    {
        DnsSettings { nameservers: None, search: None }
    }
}

impl DnsSettings {
    /// Fills each setting the configuration left unset from the DHCP
    /// lease; a setting the configuration did set is kept.
    pub fn merge_lease(
        &mut self,
        lease_nameservers: Option<Vec<String>>,
        lease_search: Option<Vec<String>>,
    )
        ensures
            final(self).nameservers == if old(self).nameservers is Some {
                old(self).nameservers
            } else {
                lease_nameservers
            },
            final(self).search == if old(self).search is Some {
                old(self).search
            } else {
                lease_search
            },
    {
        if self.nameservers.is_none() {
            self.nameservers = lease_nameservers;
        }
        if self.search.is_none() {
            self.search = lease_search;
        }
    }

    /// Whether any name servers are set.
    pub fn has_name_servers(&self) -> (r: bool)
        ensures
            r == (self.nameservers is Some),
    {
        self.nameservers.is_some()
    }

    /// Whether any search domains are set.
    pub fn has_search_domains(&self) -> (r: bool)
        ensures
            r == (self.search is Some),
    {
        self.search.is_some()
    }
}

/// The words joined with single spaces, in order.
pub open spec fn spec_join_spaces(words: Seq<Seq<char>>) -> Seq<char>
    decreases words.len(),
{
    if words.len() == 0 {
        Seq::empty()
    } else if words.len() == 1 {
        words[0]
    } else {
        words[0] + seq![' '] + spec_join_spaces(words.drop_first())
    }
}

/// Joining one more word appends a space and the word, except to nothing.
proof fn lemma_join_push(words: Seq<Seq<char>>, w: Seq<char>)
    ensures
        spec_join_spaces(words.push(w)) == if words.len() == 0 {
            w
        } else {
            spec_join_spaces(words) + seq![' '] + w
        },
    decreases words.len(),
{
    if words.len() == 0 {
        assert(words.push(w).len() == 1);
        assert(words.push(w)[0] == w);
    } else {
        assert(words.push(w).drop_first() =~= words.drop_first().push(w));
        lemma_join_push(words.drop_first(), w);
        if words.len() == 1 {
            assert(spec_join_spaces(words.push(w)) == words[0] + seq![' '] + w);
            assert(spec_join_spaces(words) == words[0]);
        } else {
            assert(words[0] + seq![' '] + (spec_join_spaces(words.drop_first()) + seq![' '] + w)
                =~= (words[0] + seq![' '] + spec_join_spaces(words.drop_first())) + seq![' '] + w);
        }
    }
}

/// The words of `words` joined with single spaces.
#[verifier::loop_isolation(false)]
pub fn join_spaces(words: &Vec<String>) -> (r: String)
    ensures
        r@ == spec_join_spaces(words.deep_view()),
{
    let mut r = String::new();
    let mut i: usize = 0;
    proof {
        assert(words.deep_view().take(0) =~= Seq::<Seq<char>>::empty());
    }
    while i < words.len()
        invariant
            i <= words@.len(),
            r@ == spec_join_spaces(words.deep_view().take(i as int)),
        decreases words@.len() - i,
    {
        proof {
            assert(words.deep_view().take(i as int + 1) =~= words.deep_view().take(
                i as int,
            ).push(words.deep_view()[i as int]));
            lemma_join_push(words.deep_view().take(i as int), words.deep_view()[i as int]);
        }
        if i > 0 {
            push_char(&mut r, ' ');
        }
        r.append(words[i].as_str());
        proof {
            assert(r@ =~= spec_join_spaces(words.deep_view().take(i as int + 1)));
        }
        i += 1;
    }
    proof {
        assert(words.deep_view().take(i as int) =~= words.deep_view());
    }
    r
}

/// The name-server lines of a resolver configuration, one per server, in
/// the given order.
pub open spec fn spec_nameserver_lines(servers: Seq<Seq<char>>) -> Seq<char>
    decreases servers.len(),
{
    if servers.len() == 0 {
        Seq::empty()
    } else {
        spec_nameserver_lines(servers.drop_last()) + "nameserver "@ + servers.last() + seq!['\n']
    }
}

/// The resolver configuration text for libc: an optional search line,
/// then one line per name server, in exactly the order given. The caller
/// decides that order; randomizing it is the caller's business.
pub open spec fn spec_resolv_conf(
    search: Option<Seq<Seq<char>>>,
    servers: Seq<Seq<char>>,
) -> Seq<char> {
    (match search {
        Some(domains) => "search "@ + spec_join_spaces(domains) + seq!['\n'],
        None => Seq::empty(),
    }) + spec_nameserver_lines(servers)
}

/// Builds the resolver configuration text for libc.
#[verifier::loop_isolation(false)]
pub fn resolv_conf_text(search: &Option<Vec<String>>, servers: &Vec<String>) -> (r: String)
    ensures
        r@ == spec_resolv_conf(
            match search {
                Some(domains) => Some(domains.deep_view()),
                None => None,
            },
            servers.deep_view(),
        ),
{
    let mut r = String::new();
    match search {
        Some(domains) => {
            r.append("search ");
            let joined = join_spaces(domains);
            r.append(joined.as_str());
            push_char(&mut r, '\n');
        },
        None => {},
    }
    let ghost head = r@;
    let mut i: usize = 0;
    proof {
        assert(spec_nameserver_lines(servers.deep_view().take(0)) =~= Seq::<char>::empty());
        assert(r@ =~= head + spec_nameserver_lines(servers.deep_view().take(0)));
    }
    while i < servers.len()
        invariant
            i <= servers@.len(),
            r@ == head + spec_nameserver_lines(servers.deep_view().take(i as int)),
        decreases servers@.len() - i,
    {
        proof {
            assert(servers.deep_view().take(i as int + 1).drop_last() =~= servers.deep_view().take(
                i as int,
            ));
        }
        r.append("nameserver ");
        r.append(servers[i].as_str());
        push_char(&mut r, '\n');
        proof {
            assert(r@ =~= head + spec_nameserver_lines(servers.deep_view().take(i as int + 1)));
        }
        i += 1;
    }
    proof {
        assert(servers.deep_view().take(i as int) =~= servers.deep_view());
        assert(r@ =~= spec_resolv_conf(
            match search {
                Some(domains) => Some(domains.deep_view()),
                None => None,
            },
            servers.deep_view(),
        ));
    }
    r
}

/// The drop-in text for systemd-resolved: one section with the name
/// servers and search domains, each space-separated, in the given order.
pub open spec fn spec_resolved_dropin(dns: Seq<Seq<char>>, domains: Seq<Seq<char>>) -> Seq<char> {
    "[Resolve]\nDNS="@ + spec_join_spaces(dns) + "\nDomains="@ + spec_join_spaces(domains)
        + seq!['\n']
}

/// Builds the drop-in text for systemd-resolved.
pub fn resolved_dropin_text(dns: &Vec<String>, domains: &Vec<String>) -> (r: String)
    ensures
        r@ == spec_resolved_dropin(dns.deep_view(), domains.deep_view()),
{
    let mut r = String::from_str("[Resolve]\nDNS=");
    let dns_joined = join_spaces(dns);
    r.append(dns_joined.as_str());
    r.append("\nDomains=");
    let domains_joined = join_spaces(domains);
    r.append(domains_joined.as_str());
    push_char(&mut r, '\n');
    proof {
        assert(r@ =~= spec_resolved_dropin(dns.deep_view(), domains.deep_view()));
    }
    r
}

} // verus!
