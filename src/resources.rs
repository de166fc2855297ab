//! Texture handles and the table that hands them out.
use vstd::prelude::*;

verus! {

/// Number of handles that a `u32` can name.
pub const FULL_HANDLE_DOMAIN: u64 = 0x1_0000_0000;

/// An opaque handle naming a registered texture.
#[derive(Clone, Copy, Debug, PartialEq, Eq, Hash, Structural)]
pub struct ImageKey(pub u32);

impl ImageKey {
    /// The handle's number.
    pub fn id(&self) -> (r: u32)
        ensures
            r == self.0,
    {
        self.0
    }
}

/// The failures that the handle table reports.
#[derive(Clone, Copy, Debug, PartialEq, Eq, Structural)]
pub enum DrawError {
    /// Every handle of the domain is in use.
    ResourceExhausted,
    /// The handle was never registered.
    InvalidHandle,
}

/// Maps handles to texture resources. Handles are never released, so the
/// handles in use are always `0 .. len`, and the smallest unused one is `len`.
pub struct ResourceTable<T> {
    images: Vec<T>,
    domain: u64,
}

impl<T> ResourceTable<T> {
    /// Contents, indexed by handle.
    pub closed spec fn entries(&self) -> Seq<T> {
        self.images@
    }

    /// How many handles the table may ever give out.
    pub closed spec fn domain_size(&self) -> nat {
        self.domain as nat
    }

    pub closed spec fn wf(&self) -> bool {
        &&& self.domain <= FULL_HANDLE_DOMAIN
        &&& self.images@.len() <= self.domain
    }

    /// A handle that is in use.
    pub open spec fn in_use(&self, h: u32) -> bool {
        h < self.entries().len()
    }

    /// An empty table whose handles are drawn from `0 .. domain`.
    pub fn with_domain(domain: u32) -> (r: Self)
        ensures
            r.wf(),
            r.entries() == Seq::<T>::empty(),
            r.domain_size() == domain,
    {
        ResourceTable { images: Vec::new(), domain: domain as u64 }
    }

    /// An empty table over every `u32` handle.
    pub fn new() -> (r: Self)
        ensures
            r.wf(),
            r.entries() == Seq::<T>::empty(),
            r.domain_size() == FULL_HANDLE_DOMAIN,
    {
        ResourceTable { images: Vec::new(), domain: FULL_HANDLE_DOMAIN }
    }

    /// Stores `resource` under the smallest handle not in use; fails, and
    /// keeps the table as it was, when every handle of the domain is taken.
    pub fn register(&mut self, resource: T) -> (r: Result<ImageKey, DrawError>)
        requires
            old(self).wf(),
        ensures
            final(self).wf(),
            final(self).domain_size() == old(self).domain_size(),
            old(self).entries().len() < old(self).domain_size() <==> r is Ok,
            r matches Ok(k) ==> {
                &&& k.0 == old(self).entries().len()
                &&& !old(self).in_use(k.0)
                &&& forall|h: u32| h < k.0 ==> old(self).in_use(h)
                &&& final(self).entries() == old(self).entries().push(resource)
            },
            r matches Err(e) ==> {
                &&& e == DrawError::ResourceExhausted
                &&& *final(self) == *old(self)
            },
    {
        let n = self.images.len();
        if (n as u64) < self.domain {
            self.images.push(resource);
            Ok(ImageKey(n as u32))
        } else {
            Err(DrawError::ResourceExhausted)
        }
    }

    /// The resource registered under `key`.
    pub fn resolve(&self, key: ImageKey) -> (r: Result<&T, DrawError>)
        ensures
            self.in_use(key.0) <==> r is Ok,
            r matches Ok(t) ==> *t == self.entries()[key.0 as int],
            r matches Err(e) ==> e == DrawError::InvalidHandle,
    {
        if (key.0 as usize) < self.images.len() {
            Ok(&self.images[key.0 as usize])
        } else {
            Err(DrawError::InvalidHandle)
        }
    }

    /// Number of handles in use.
    pub fn len(&self) -> (r: usize)
        ensures
            r == self.entries().len(),
    {
        self.images.len()
    }
}

} // verus!
