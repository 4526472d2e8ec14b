//! The batch loader: the bookkeeping of the applications linked into the kernel
//! image, which run one after another from the same load address.
use vstd::prelude::*;

verus! {

/// The largest number of applications.
pub const MAX_APP_NUM: usize = 16;
/// Where each application is loaded.
pub const APP_BASE_ADDRESS: usize = 0x8040_0000;
/// The room an application has at its load address.
pub const APP_SIZE_LIMIT: usize = 0x2_0000;

/// What to do to run an application.
#[derive(Clone, Copy, PartialEq, Eq, Structural, Debug)]
pub enum AppStep {
    /// Every application has run: leave the machine with success.
    AllCompleted,
    /// Clear `[APP_BASE_ADDRESS, APP_BASE_ADDRESS + APP_SIZE_LIMIT)`, copy the bytes
    /// `[start, end)` of the kernel image to the load address and jump there.
    Load { start: usize, end: usize },
}

/// The applications linked into the kernel and the one to run next.
pub struct AppLoader {
    app_count: usize,
    current_app: usize,
    app_start_addresses: Vec<usize>,
}

impl AppLoader {
    /// The number of applications.
    pub closed spec fn spec_app_count(&self) -> usize {
        self.app_count
    }

    /// The application to run next.
    pub closed spec fn spec_current_app(&self) -> usize {
        self.current_app
    }

    /// The addresses where the applications start in the kernel image, and after
    /// that the address where the last one ends.
    pub closed spec fn spec_addresses(&self) -> Seq<usize> {
        self.app_start_addresses@
    }

    /// The loader is consistent.
    pub closed spec fn wf(&self) -> bool {
        &&& self.app_start_addresses@.len() == self.app_count + 1
        &&& self.current_app <= self.app_count
        &&& self.app_count <= MAX_APP_NUM
    }

    /// A loader of the `app_count` applications whose bounds `addresses` holds (the
    /// start of each, then the end of the last), none of them run yet.
    pub fn new(app_count: usize, addresses: Vec<usize>) -> (r: Self)
        requires
            app_count <= MAX_APP_NUM,
            addresses@.len() == app_count + 1,
        ensures
            r.wf(),
            r.spec_app_count() == app_count,
            r.spec_current_app() == 0,
            r.spec_addresses() == addresses@,
    {
        Self { app_count, current_app: 0, app_start_addresses: addresses }
    }

    /// The number of applications.
    pub fn app_count(&self) -> (r: usize)
        ensures
            r == self.spec_app_count(),
    {
        self.app_count
    }

    /// The application to run next.
    pub fn get_current_app(&self) -> (r: usize)
        ensures
            r == self.spec_current_app(),
    {
        self.current_app
    }

    /// The address where application `app_id` is loaded when each has a region of
    /// its own.
    pub fn get_base_address(app_id: usize) -> (r: usize)
        requires
            APP_BASE_ADDRESS + app_id * APP_SIZE_LIMIT <= usize::MAX,
        ensures
            r == APP_BASE_ADDRESS + app_id * APP_SIZE_LIMIT,
    {
        APP_BASE_ADDRESS + app_id * APP_SIZE_LIMIT
    }

    /// How to run application `app_id`: its bytes in the kernel image, or the end of
    /// the batch when every application has run.
    pub fn load_app(&self, app_id: usize) -> (r: AppStep)
        requires
            self.wf(),
        ensures
            app_id >= self.spec_app_count() ==> r == AppStep::AllCompleted,
            app_id < self.spec_app_count() ==> r == (AppStep::Load {
                start: self.spec_addresses()[app_id as int],
                end: self.spec_addresses()[app_id + 1],
            }),
    {
        if app_id >= self.app_count {
            return AppStep::AllCompleted;
        }
        AppStep::Load { start: self.app_start_addresses[app_id], end: self.app_start_addresses[app_id + 1] }
    }

    /// Moves on to the next application, which may be the end of the batch.
    pub fn move_to_next_app(&mut self)
        requires
            old(self).wf(),
            old(self).spec_current_app() < old(self).spec_app_count(),
        ensures
            final(self).wf(),
            final(self).spec_current_app() == old(self).spec_current_app() + 1,
            final(self).spec_app_count() == old(self).spec_app_count(),
            final(self).spec_addresses() == old(self).spec_addresses(),
    {
        self.current_app = self.current_app + 1;
    }
}

} // verus!
