//! The class factory's decision: refuse aggregation, refuse to construct
//! inside the NVDA process (loop prevention), and hand out only the
//! interfaces the engine has.
use vstd::prelude::*;

use crate::clsid::CLSID_SAPIENCE_VOICE;
use crate::tts_engine::TtsEngine;

verus! {

/// The class factory of the SAPIence voice.
pub struct ClassFactory;

/// Why no class factory is handed out.
#[derive(Debug, Copy, Clone, PartialEq, Eq)]
pub enum ClassObjectError {
    /// The class id is not the voice's (`CLASS_E_CLASSNOTAVAILABLE`).
    ClassNotAvailable,
    /// The interface asked for is not `IClassFactory` (`E_UNEXPECTED`).
    Unexpected,
}

/// `DllGetClassObject`'s decision: a factory only for the voice's class id,
/// and only through `IClassFactory`.
pub fn get_class_object(clsid: u128, wants_class_factory: bool) -> (r: Result<
    ClassFactory,
    ClassObjectError,
>)
    ensures
        clsid != CLSID_SAPIENCE_VOICE ==> r == Err::<ClassFactory, ClassObjectError>(
            ClassObjectError::ClassNotAvailable,
        ),
        clsid == CLSID_SAPIENCE_VOICE && !wants_class_factory ==> r == Err::<
            ClassFactory,
            ClassObjectError,
        >(ClassObjectError::Unexpected),
        clsid == CLSID_SAPIENCE_VOICE && wants_class_factory ==> r is Ok,
{
    if clsid != CLSID_SAPIENCE_VOICE {
        Err(ClassObjectError::ClassNotAvailable)
    } else if !wants_class_factory {
        Err(ClassObjectError::Unexpected)
    } else {
        Ok(ClassFactory)
    }
}

/// The number of engines alive in this process: the count that
/// `DllCanUnloadNow` reads.
pub struct LiveObjects {
    count: u64,
}

impl View for LiveObjects {
    type V = nat;

    closed spec fn view(&self) -> nat {
        self.count as nat
    }
}

impl LiveObjects {
    /// No engine alive.
    pub fn new() -> (r: Self)
        ensures
            r@ == 0,
    {
        LiveObjects { count: 0 }
    }

    /// How many engines are alive.
    pub fn count(&self) -> (n: u64)
        ensures
            n == self@,
    {
        self.count
    }

    /// An engine was dropped: one fewer is alive (none stays none).
    pub fn release(&mut self)
        ensures
            final(self)@ == (if old(self)@ > 0 {
                (old(self)@ - 1) as nat
            } else {
                0
            }),
    {
        if self.count > 0 {
            self.count = self.count - 1;
        }
    }

    /// Whether the DLL may be unloaded: no engine is alive.
    pub fn can_unload(&self) -> (b: bool)
        ensures
            b == (self@ == 0),
    {
        self.count == 0
    }
}

/// The interface a caller asks the factory for.
#[derive(Debug, Copy, Clone, PartialEq, Eq)]
pub enum RequestedInterface {
    Unknown,
    TtsEngine,
    ObjectWithToken,
    Other,
}

/// Why the factory refuses.
#[derive(Debug, Copy, Clone, PartialEq, Eq)]
pub enum CreateError {
    /// An outer object was given (`CLASS_E_NOAGGREGATION`).
    NoAggregation,
    /// The caller's process is NVDA (`CLASS_E_CLASSNOTAVAILABLE`).
    ClassNotAvailable,
    /// The interface is not one the engine has (`E_NOINTERFACE`).
    NoInterface,
}

/// What the factory answers: no aggregation; no engine inside the NVDA
/// process; otherwise an engine behind the requested interface, if the
/// engine has it.
pub open spec fn spec_create_instance(
    has_outer: bool,
    nvda_pid: Option<u32>,
    current_pid: u32,
    iid: RequestedInterface,
) -> Result<RequestedInterface, CreateError> {
    if has_outer {
        Err(CreateError::NoAggregation)
    } else if nvda_pid == Some(current_pid) {
        Err(CreateError::ClassNotAvailable)
    } else if iid == RequestedInterface::Other {
        Err(CreateError::NoInterface)
    } else {
        Ok(iid)
    }
}

/// Loop prevention: inside the NVDA process the factory refuses, whatever
/// interface is asked for; an aggregating caller is refused first.
pub proof fn lemma_no_engine_inside_nvda(
    has_outer: bool,
    pid: u32,
    iid: RequestedInterface,
)
    ensures
        spec_create_instance(has_outer, Some(pid), pid, iid) == (if has_outer {
            Err::<RequestedInterface, CreateError>(CreateError::NoAggregation)
        } else {
            Err::<RequestedInterface, CreateError>(CreateError::ClassNotAvailable)
        }),
{
}

/// Outside the NVDA process, without aggregation, the factory hands out
/// exactly the three interfaces the engine has and refuses every other.
pub proof fn lemma_engine_interfaces(nvda_pid: Option<u32>, current_pid: u32, iid: RequestedInterface)
    requires
        nvda_pid != Some(current_pid),
    ensures
        spec_create_instance(false, nvda_pid, current_pid, iid) == (if iid
            == RequestedInterface::Other {
            Err::<RequestedInterface, CreateError>(CreateError::NoInterface)
        } else {
            Ok::<RequestedInterface, CreateError>(iid)
        }),
{
}

impl ClassFactory {
    /// Decides a `CreateInstance` call: `has_outer` when an outer object was
    /// given, `nvda_pid` the NVDA process id if the controller client could
    /// tell it, `current_pid` the id of this process. On success, the engine
    /// and the interface to hand it out through, and `live` counts one more
    /// engine; on a refusal `live` stays as it was.
    pub fn create_instance(
        &self,
        live: &mut LiveObjects,
        has_outer: bool,
        nvda_pid: Option<u32>,
        current_pid: u32,
        iid: RequestedInterface,
    ) -> (r: Result<(TtsEngine, RequestedInterface), CreateError>)
        requires
            old(live)@ < u64::MAX,
        ensures
            r is Ok ==> final(live)@ == old(live)@ + 1,
            r is Err ==> final(live)@ == old(live)@,
            match spec_create_instance(has_outer, nvda_pid, current_pid, iid) {
                Ok(i) => r matches Ok((_, j)) && i == j,
                Err(e) => r == Err::<(TtsEngine, RequestedInterface), CreateError>(e),
            },
            has_outer ==> r == Err::<(TtsEngine, RequestedInterface), CreateError>(
                CreateError::NoAggregation,
            ),
            !has_outer && nvda_pid == Some(current_pid) ==> r == Err::<
                (TtsEngine, RequestedInterface),
                CreateError,
            >(CreateError::ClassNotAvailable) && final(live)@ == old(live)@,
            r matches Ok((_, j)) ==> j == iid && j != RequestedInterface::Other && !has_outer
                && nvda_pid != Some(current_pid),
    {
        if has_outer {
            return Err(CreateError::NoAggregation);
        }
        match nvda_pid {
            Some(pid) => {
                if pid == current_pid {
                    return Err(CreateError::ClassNotAvailable);
                }
            },
            None => {},
        }
        match iid {
            RequestedInterface::Other => Err(CreateError::NoInterface),
            _ => {
                let engine = TtsEngine::new();
                live.count = live.count + 1;
                Ok((engine, iid))
            },
        }
    }
}

} // verus!
