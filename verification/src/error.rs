//! Errors of the paging code and of the hypervisor around it.
use vstd::prelude::*;

verus! {

/// What can go wrong while a page table is read or changed.
#[derive(Debug, Copy, Clone, PartialEq, Eq, Structural)]
pub enum PagingError {
    NoMemory,
    NotMapped,
    AlreadyMapped,
    MappedToHugePage,
}

pub type PagingResult<T = ()> = Result<T, PagingError>;

/// The error numbers that paging hands to the rest of the hypervisor.
#[derive(Debug, Copy, Clone, PartialEq, Eq, Structural)]
pub enum HvErrorNum {
    ENOMEM,
    EFAULT,
}

/// An error of the hypervisor: a number, and a message where there is one.
#[derive(Debug)]
pub struct HvError {
    pub num: HvErrorNum,
    pub msg: Option<String>,
}

pub type HvResult<T = ()> = Result<T, HvError>;

impl PagingError {
    /// The name of the error.
    pub open spec fn name(self) -> Seq<char> {
        match self {
            PagingError::NoMemory => "NoMemory"@,
            PagingError::NotMapped => "NotMapped"@,
            PagingError::AlreadyMapped => "AlreadyMapped"@,
            PagingError::MappedToHugePage => "MappedToHugePage"@,
        }
    }
}

impl HvError {
    /// The error is what a paging error is reported as: running out of memory keeps its own
    /// number and needs no message; everything else is a fault that carries the error's name.
    pub open spec fn reports(self, err: PagingError) -> bool {
        match err {
            PagingError::NoMemory => self.num == HvErrorNum::ENOMEM && self.msg is None,
            _ => {
                &&& self.num == HvErrorNum::EFAULT
                &&& self.msg matches Some(msg) && msg@ == err.name()
            },
        }
    }
}

impl From<PagingError> for HvError {
    fn from(err: PagingError) -> (ret: Self)
        ensures
            ret.reports(err),
    {
        match err {
            PagingError::NoMemory => HvError { num: HvErrorNum::ENOMEM, msg: None },
            PagingError::NotMapped => HvError {
                num: HvErrorNum::EFAULT,
                msg: Some("NotMapped".to_owned()),
            },
            PagingError::AlreadyMapped => HvError {
                num: HvErrorNum::EFAULT,
                msg: Some("AlreadyMapped".to_owned()),
            },
            PagingError::MappedToHugePage => HvError {
                num: HvErrorNum::EFAULT,
                msg: Some("MappedToHugePage".to_owned()),
            },
        }
    }
}

/// A `String` is known by its characters only, so there is no single value to call the
/// converted error: what `from` returns is stated by its own `ensures`.
impl vstd::std_specs::convert::FromSpecImpl<PagingError> for HvError {
    open spec fn obeys_from_spec() -> bool {
        false
    }

    open spec fn from_spec(v: PagingError) -> Self {
        arbitrary()
    }
}

} // verus!
