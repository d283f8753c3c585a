//! Filters on the publish path: what may look at a message, change it,
//! and say whether it goes on.

use crate::connection::Connection;
use crate::protocol::{Publish, PublishProperties};
use std::ops::Deref;
use std::sync::Arc;
use vstd::prelude::*;
use vstd::std_specs::convert::FromSpecImpl;

verus! {

/// What a filter is told of the connection that a message came in on.
#[derive(Debug, Clone)]
#[non_exhaustive]
pub struct PublishFilterContext<'a> {
    pub username: Option<&'a String>,
    pub tennant_id: Option<&'a String>,
}

impl<'a> FromSpecImpl<&'a Connection> for PublishFilterContext<'a> {
    open spec fn obeys_from_spec() -> bool {
        true
    }

    open spec fn from_spec(value: &'a Connection) -> Self {
        PublishFilterContext {
            username: match value.username {
                Some(name) => Some(&name),
                None => None,
            },
            tennant_id: match value.tenant_id {
                Some(tenant) => Some(&tenant),
                None => None,
            },
        }
    }
}

impl<'a> From<&'a Connection> for PublishFilterContext<'a> {
    /// The user and the tenant of a connection, where it has them.
    fn from(value: &'a Connection) -> (r: Self) {
        Self { username: value.username.as_ref(), tennant_id: value.tenant_id.as_ref() }
    }
}

/// A filter for published messages. It may change the message and its
/// properties, and says whether the message goes on. What a filter does
/// is for whoever writes one; so is what it asks of its arguments.
pub trait PublishFilter: Send + Sync {
    /// Whether the filter may be called on these arguments. A filter
    /// that does not say what it asks of them asks nothing.
    open spec fn admits(
        &self,
        context: &PublishFilterContext,
        packet: &mut Publish,
        properties: Option<&mut PublishProperties>,
    ) -> bool {
        true
    }

    /// Looks at a message, which it may change, and at its properties,
    /// which are there from version 5 of the protocol on. Returns whether
    /// the message is to be handled further.
    fn filter(
        &self,
        context: &PublishFilterContext,
        packet: &mut Publish,
        properties: Option<&mut PublishProperties>,
    ) -> bool
        requires
            self.admits(context, old(packet), properties),
    ;
}

/// A filter that several owners share.
pub struct SharedFilter(pub Arc<dyn PublishFilter>);

/// A filter, either shared by its owners or one that lives as long as the
/// program. Both are called in the same way.
pub enum PublishFilterRef {
    Owned(SharedFilter),
    Static(&'static dyn PublishFilter),
}

/// `Arc::clone`: one more owner of the same filter. What the new pointer
/// points to is what the old one points to.
#[verifier::external_body]
fn share_again(filter: &SharedFilter) -> (r: SharedFilter)
    ensures
        ({
            let given: &dyn PublishFilter = &*filter.0;
            let held: &dyn PublishFilter = &*r.0;
            held == given
        }),
{
    SharedFilter(filter.0.clone())
}

impl Clone for SharedFilter {
    /// One more owner of the same filter. The filter itself is not
    /// copied.
    fn clone(&self) -> (r: Self)
        ensures
            ({
                let given: &dyn PublishFilter = &*self.0;
                let held: &dyn PublishFilter = &*r.0;
                held == given
            }),
    {
        share_again(self)
    }
}

impl Clone for PublishFilterRef {
    /// One more handle on the same filter, of the same kind.
    fn clone(&self) -> (r: Self)
        ensures
            match self {
                PublishFilterRef::Static(filter) => ({
                    let held: &'static dyn PublishFilter = *filter;
                    r == PublishFilterRef::Static(held)
                }),
                PublishFilterRef::Owned(shared) => r is Owned && ({
                    let given: &dyn PublishFilter = &*shared.0;
                    let held: &dyn PublishFilter = &*r->Owned_0.0;
                    held == given
                }),
            },
    {
        match self {
            Self::Static(filter) => {
                let held: &'static dyn PublishFilter = *filter;
                Self::Static(held)
            },
            Self::Owned(shared) => Self::Owned(shared.clone()),
        }
    }
}

impl Deref for PublishFilterRef {
    type Target = dyn PublishFilter;

    /// The filter itself: the one that lives as long as the program, or
    /// the one that is shared. To Verus a reference to a trait object and
    /// the same reference taken once more as one are two values; so the
    /// clause takes what the handle holds as the result's type, as the
    /// return does, and each arm returns by itself.
    fn deref(&self) -> (r: &Self::Target)
        ensures
            match self {
                PublishFilterRef::Static(filter) => ({
                    let held: &dyn PublishFilter = *filter;
                    r == held
                }),
                PublishFilterRef::Owned(shared) => ({
                    let held: &dyn PublishFilter = &*shared.0;
                    r == held
                }),
            },
    {
        match self {
            Self::Static(filter) => {
                return *filter;
            },
            Self::Owned(shared) => {
                return &*shared.0;
            },
        };
    }
}

/// A call of a plain function as a filter, on the arguments as one
/// value: `Fn::call`. The arguments meet what the function asks of them,
/// and the call has done to the message and its properties, and has
/// returned, what the function promises.
#[verifier::external_body]
fn call_function<'a, F>(
    function: &F,
    args: (&'a PublishFilterContext<'a>, &'a mut Publish, Option<&'a mut PublishProperties>),
) -> (r: bool)
where
    F: Fn(&PublishFilterContext, &mut Publish, Option<&mut PublishProperties>) -> bool + Send + Sync,
    requires
        call_requires(*function, args),
    ensures
        call_ensures(*function, args, r),
{
    function(args.0, args.1, args.2)
}

/// Every plain function of a filter's shape is a filter: it is called on
/// what the filter is called on, and what it does and returns is what
/// the filter does and returns.
impl<F> PublishFilter for F
where
    F: Fn(&PublishFilterContext, &mut Publish, Option<&mut PublishProperties>) -> bool + Send + Sync,
{
    /// A function may be called as a filter on the arguments that it
    /// may be called on as a function.
    open spec fn admits(
        &self,
        context: &PublishFilterContext,
        packet: &mut Publish,
        properties: Option<&mut PublishProperties>,
    ) -> bool {
        call_requires(*self, (context, packet, properties))
    }

    fn filter(
        &self,
        context: &PublishFilterContext<'_>,
        packet: &mut Publish,
        properties: Option<&mut PublishProperties>,
    ) -> (r: bool)
        ensures
            call_ensures(*self, (context, old(packet), properties), r),
    {
        // handed on as they came in, not borrowed anew: the function gets
        // the very references that the filter got
        let args = (context, packet, properties);
        call_function(self, args)
    }
}

/// A function may be called as a filter wherever it may be called as a
/// function.
pub proof fn lemma_function_admits<F>(function: &F) where
    F: Fn(&PublishFilterContext, &mut Publish, Option<&mut PublishProperties>) -> bool + Send + Sync,
    ensures
        forall|
            context: &PublishFilterContext,
            packet: &mut Publish,
            properties: Option<&mut PublishProperties>,
        |
            call_requires(*function, (context, packet, properties)) ==> #[trigger] function.admits(
                context,
                packet,
                properties,
            ),
{
}

/// A shared filter of some type as a shared filter of any type: the
/// unsizing of `Arc<T>`. What the pointer points to stays what it was.
#[verifier::external_body]
fn as_shared_filter<T: PublishFilter + 'static>(value: Arc<T>) -> (r: SharedFilter)
    ensures
        ({
            let given: &dyn PublishFilter = &*value;
            let held: &dyn PublishFilter = &*r.0;
            held == given
        }),
{
    SharedFilter(value)
}

impl<F> FromSpecImpl<&'static F> for PublishFilterRef
where
    F: Fn(&PublishFilterContext, &mut Publish, Option<&mut PublishProperties>) -> bool + Send + Sync,
{
    open spec fn obeys_from_spec() -> bool {
        false
    }

    open spec fn from_spec(value: &'static F) -> Self {
        arbitrary()
    }
}

impl<F> From<&'static F> for PublishFilterRef
where
    F: Fn(&PublishFilterContext, &mut Publish, Option<&mut PublishProperties>) -> bool + Send + Sync,
{
    /// A function that lives as long as the program is referred to, and
    /// needs no counting of owners.
    fn from(value: &'static F) -> (r: Self)
        ensures
            r is Static,
            ({
                let held: &'static dyn PublishFilter = value;
                r == PublishFilterRef::Static(held)
            }),
    {
        let held: &'static dyn PublishFilter = value;
        Self::Static(held)
    }
}

impl<T> FromSpecImpl<Arc<T>> for PublishFilterRef where T: PublishFilter + 'static {
    open spec fn obeys_from_spec() -> bool {
        false
    }

    open spec fn from_spec(value: Arc<T>) -> Self {
        arbitrary()
    }
}

impl<T> From<Arc<T>> for PublishFilterRef where T: PublishFilter + 'static {
    /// A filter that is shared already stays shared.
    fn from(value: Arc<T>) -> (r: Self)
        ensures
            r is Owned,
            ({
                let given: &dyn PublishFilter = &*value;
                let held: &dyn PublishFilter = &*r->Owned_0.0;
                held == given
            }),
    {
        Self::Owned(as_shared_filter(value))
    }
}

impl<T> FromSpecImpl<Box<T>> for PublishFilterRef where T: PublishFilter + 'static {
    open spec fn obeys_from_spec() -> bool {
        false
    }

    open spec fn from_spec(value: Box<T>) -> Self {
        arbitrary()
    }
}

impl<T> From<Box<T>> for PublishFilterRef where T: PublishFilter + 'static {
    /// A boxed filter becomes a shared one.
    fn from(value: Box<T>) -> (r: Self)
        ensures
            r is Owned,
            ({
                let given: &dyn PublishFilter = &*value;
                let held: &dyn PublishFilter = &*r->Owned_0.0;
                held == given
            }),
    {
        Self::Owned(as_shared_filter(Arc::new(*value)))
    }
}

} // verus!
