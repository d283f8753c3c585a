//! The state that the router keeps for one connection.

use crate::acl::{substitute, Acl, AclView};
use crate::aliases::{AliasTable, BrokerAliases};
use crate::protocol::{LastWill, LastWillProperties};
use std::collections::HashMap;
use vstd::hash_map::StringHashMap;
use vstd::hash_set::StringHashSet;
use vstd::prelude::*;

verus! {

/// The client id under which a connection is known: the client's own,
/// behind the tenant's id and a dot where the client belongs to a tenant.
pub open spec fn qualified_client_id(tenant_id: Option<Seq<char>>, client_id: Seq<char>) -> Seq<
    char,
> {
    match tenant_id {
        Some(tenant) => tenant + seq!['.'] + client_id,
        None => client_id,
    }
}

/// The variables that a connection puts into its access rules: `%c` for
/// the client id it is known under, then `%t` for the tenant and `%u` for
/// the user, each where there is one.
pub open spec fn connection_variables(
    client_id: Seq<char>,
    tenant_id: Option<Seq<char>>,
    username: Option<Seq<char>>,
) -> Seq<(Seq<char>, Seq<char>)> {
    seq![(seq!['%', 'c'], client_id)] + (match tenant_id {
        Some(tenant) => seq![(seq!['%', 't'], tenant)],
        None => Seq::empty(),
    }) + (match username {
        Some(user) => seq![(seq!['%', 'u'], user)],
        None => Seq::empty(),
    })
}

/// The text of a string that may be absent.
pub open spec fn text_of(s: Option<String>) -> Option<Seq<char>> {
    match s {
        Some(s) => Some(s@),
        None => None,
    }
}

/// What the router knows of one connected client.
pub struct Connection {
    /// The client's id, behind its tenant's where it has one.
    pub client_id: String,
    /// Id of the client's organisation.
    pub tenant_id: Option<String>,
    /// The name under which the client was authenticated.
    pub username: Option<String>,
    /// Whether a publish may create a filter that did not exist.
    pub dynamic_filters: bool,
    /// The access entries, with this connection's variables put in.
    pub acls: Vec<Acl>,
    /// Whether the session ends with the connection.
    pub clean: bool,
    /// The filters subscribed to.
    pub subscriptions: StringHashSet,
    /// The last will.
    pub last_will: Option<LastWill>,
    /// The properties of the last will.
    pub last_will_properties: Option<LastWillProperties>,
    /// The version of the protocol that the client speaks; 0 until the
    /// router has set it.
    pub protocol_level: u8,
    /// The topics that the client has given an alias.
    pub topic_aliases: HashMap<u16, String>,
    /// The aliases that the broker gives out, where the client takes any.
    pub broker_topic_aliases: Option<BrokerAliases>,
    /// The id of each subscription that has one.
    pub subscription_ids: StringHashMap<usize>,
}

impl Connection {
    /// Whether the pool of aliases, where the connection has one, is as
    /// its own functions leave it.
    pub open spec fn wf(&self) -> bool {
        self.broker_topic_aliases matches Some(pool) ==> pool.wf()
    }

    /// The state of a new connection. The client id is put behind the
    /// tenant's, and every access entry has the connection's variables
    /// put into its rule.
    pub fn new(
        tenant_id: Option<String>,
        username: Option<String>,
        client_id: String,
        clean: bool,
        dynamic_filters: bool,
        acls: &[Acl],
    ) -> (r: Connection)
        ensures
            r.wf(),
            r.client_id@ == qualified_client_id(text_of(tenant_id), client_id@),
            r.tenant_id == tenant_id,
            r.username == username,
            r.clean == clean,
            r.dynamic_filters == dynamic_filters,
            r.acls.len() == acls.len(),
            forall|i: int|
                0 <= i < acls.len() ==> (#[trigger] r.acls[i])@ == (AclView {
                    rule: substitute(
                        acls[i].rule@,
                        connection_variables(r.client_id@, text_of(tenant_id), text_of(username)),
                    ),
                    read: acls[i].read,
                    write: acls[i].write,
                }),
            forall|i: int|
                0 <= i < acls.len() ==> (#[trigger] r.acls[i]).rule.borrowed() == (
                acls[i].rule.borrowed() && r.acls[i].rule@ == acls[i].rule@),
            r.subscriptions@ == Set::<Seq<char>>::empty(),
            r.last_will is None,
            r.last_will_properties is None,
            r.protocol_level == 0,
            r.topic_aliases@ == Map::<u16, String>::empty(),
            r.broker_topic_aliases is None,
            r.subscription_ids@ == Map::<Seq<char>, usize>::empty(),
    {
        proof {
            reveal_strlit(".");
            reveal_strlit("%c");
            reveal_strlit("%t");
            reveal_strlit("%u");
        }
        let client_id = match &tenant_id {
            Some(tenant) => {
                let mut qualified = tenant.clone();
                qualified.append(".");
                qualified.append(client_id.as_str());
                assert(qualified@ =~= tenant@ + seq!['.'] + client_id@);
                qualified
            },
            None => client_id,
        };
        let ghost wanted = connection_variables(
            client_id@,
            text_of(tenant_id),
            text_of(username),
        );
        let mut variables: Vec<(&str, &str)> = Vec::new();
        variables.push(("%c", client_id.as_str()));
        if let Some(tenant) = &tenant_id {
            variables.push(("%t", tenant.as_str()));
        }
        if let Some(user) = &username {
            variables.push(("%u", user.as_str()));
        }
        assert(crate::acl::variables_view(variables@) =~= wanted) by {
            assert("%c"@ =~= seq!['%', 'c']);
            assert("%t"@ =~= seq!['%', 't']);
            assert("%u"@ =~= seq!['%', 'u']);
        }
        let mut substituted: Vec<Acl> = Vec::new();
        let mut i: usize = 0;
        while i < acls.len()
            invariant
                i <= acls.len(),
                substituted.len() == i,
                crate::acl::variables_view(variables@) == wanted,
                forall|j: int|
                    0 <= j < i ==> (#[trigger] substituted[j])@ == (AclView {
                        rule: substitute(acls[j].rule@, wanted),
                        read: acls[j].read,
                        write: acls[j].write,
                    }),
                forall|j: int|
                    0 <= j < i ==> (#[trigger] substituted[j]).rule.borrowed() == (
                    acls[j].rule.borrowed() && substituted[j].rule@ == acls[j].rule@),
            decreases acls.len() - i,
        {
            let acl = acls[i].substitute_variables(variables.as_slice());
            substituted.push(acl);
            i += 1;
        }
        Connection {
            client_id,
            tenant_id,
            username,
            dynamic_filters,
            clean,
            subscriptions: StringHashSet::new(),
            last_will: None,
            last_will_properties: None,
            protocol_level: 0,
            topic_aliases: HashMap::new(),
            broker_topic_aliases: None,
            subscription_ids: StringHashMap::new(),
            acls: substituted,
        }
    }

    /// Sets the largest alias that the client takes from the broker. With
    /// 0 the client takes none, and nothing changes: no alias is ever
    /// given out on this connection. Else the connection gets a pool of
    /// its own, with no alias given out yet.
    pub fn topic_alias_max(&mut self, max: u16) -> (r: &mut Connection)
        ensures
            *final(self) == *final(r),
            old(self).wf() ==> r.wf(),
            max == 0 ==> *r == *old(self),
            max > 0 ==> r.broker_topic_aliases is Some
                && r.broker_topic_aliases->Some_0.wf()
                && r.broker_topic_aliases->Some_0@ == AliasTable::fresh(max)
                && *r == (Connection { broker_topic_aliases: r.broker_topic_aliases, ..*old(self) }),
    {
        if max > 0 {
            self.broker_topic_aliases = Some(BrokerAliases::new(max));
        }
        self
    }

    /// Sets the last will and its properties, each to what is given:
    /// `None` clears it.
    pub fn last_will(&mut self, will: Option<LastWill>, props: Option<LastWillProperties>) -> (r:
        &mut Connection)
        ensures
            *final(self) == *final(r),
            old(self).wf() ==> r.wf(),
            *r == (Connection { last_will: will, last_will_properties: props, ..*old(self) }),
    {
        self.last_will = will;
        self.last_will_properties = props;
        self
    }
}

} // verus!
