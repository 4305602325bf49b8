//! Errors of the transfer engine.
use vstd::prelude::*;

verus! {

#[derive(Debug)]
pub enum TransferError {
    InvalidArgument(&'static str),
    Backend(String),
    MemoryNotRegistered { ptr: u64 },
    DeviceNotFound(String),
}

pub enum TransferErrorView {
    InvalidArgument(Seq<char>),
    Backend(Seq<char>),
    MemoryNotRegistered { ptr: u64 },
    DeviceNotFound(Seq<char>),
}

impl View for TransferError {
    type V = TransferErrorView;

    open spec fn view(&self) -> TransferErrorView {
        match self {
            TransferError::InvalidArgument(what) => TransferErrorView::InvalidArgument(what@),
            TransferError::Backend(what) => TransferErrorView::Backend(what@),
            TransferError::MemoryNotRegistered { ptr } => TransferErrorView::MemoryNotRegistered {
                ptr: *ptr,
            },
            TransferError::DeviceNotFound(what) => TransferErrorView::DeviceNotFound(what@),
        }
    }
}

/// A result, its error by what it says.
pub open spec fn transfer_view<T>(r: Result<T, TransferError>) -> Result<T, TransferErrorView> {
    match r {
        Ok(v) => Ok(v),
        Err(e) => Err(e@),
    }
}

} // verus!
