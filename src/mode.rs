use vstd::prelude::*;

use crate::error::Error;

verus! {

/// The mode a database handle was opened with, as a value.
#[derive(Clone, Copy, Debug, PartialEq, Eq, Structural)]
pub enum ModeType {
    ReadOnly,
    Secondary,
    Writeable,
    Transactional,
}

impl ModeType {
    /// Whether handles of this mode may write and merge.
    pub open spec fn spec_is_primary(self) -> bool {
        self is Writeable || self is Transactional
    }

    /// Whether handles of this mode may catch up with a primary.
    pub open spec fn spec_can_catch_up(self) -> bool {
        self is Secondary
    }

    pub fn is_primary(&self) -> (r: bool)
        ensures
            r == self.spec_is_primary(),
    {
        *self == ModeType::Writeable || *self == ModeType::Transactional
    }

    pub fn is_read_only(&self) -> (r: bool)
        ensures
            r == !self.spec_is_primary(),
    {
        !self.is_primary()
    }

    pub fn can_catch_up(&self) -> (r: bool)
        ensures
            r == self.spec_can_catch_up(),
    {
        *self == ModeType::Secondary
    }

    /// Refuses, before any other work, an insert or merge on a handle of this mode.
    pub fn check_writeable(&self) -> (r: Result<(), Error>)
        ensures
            r is Ok <==> self.spec_is_primary(),
            r is Err ==> r == Err::<(), Error>(Error::NotWriteable(*self)),
    {
        if self.is_primary() {
            Ok(())
        } else {
            Err(Error::NotWriteable(*self))
        }
    }
}

/// A mode as a type, so that a handle carries its mode at compile time.
pub trait Mode {
    spec fn spec_mode_type() -> ModeType;

    fn mode_type() -> (r: ModeType)
        ensures
            r == Self::spec_mode_type(),
    ;

    fn is_read_only() -> (r: bool)
        ensures
            r == !Self::spec_mode_type().spec_is_primary(),
    ;
}

/// A mode whose handles may write and merge.
pub trait IsWriteable: Mode {
    proof fn lemma_writeable()
        ensures
            Self::spec_mode_type().spec_is_primary(),
    ;
}

/// A mode whose handles may catch up with a primary.
pub trait IsSecondary: Mode {
    proof fn lemma_secondary()
        ensures
            Self::spec_mode_type().spec_can_catch_up(),
    ;
}

#[derive(Clone, Copy)]
pub struct ReadOnly;

#[derive(Clone, Copy)]
pub struct Secondary;

#[derive(Clone, Copy)]
pub struct Writeable;

#[derive(Clone, Copy)]
pub struct Transactional;

impl Mode for ReadOnly {
    open spec fn spec_mode_type() -> ModeType {
        ModeType::ReadOnly
    }

    fn mode_type() -> (r: ModeType) {
        ModeType::ReadOnly
    }

    fn is_read_only() -> (r: bool) {
        true
    }
}

impl Mode for Secondary {
    open spec fn spec_mode_type() -> ModeType {
        ModeType::Secondary
    }

    fn mode_type() -> (r: ModeType) {
        ModeType::Secondary
    }

    fn is_read_only() -> (r: bool) {
        true
    }
}

impl Mode for Writeable {
    open spec fn spec_mode_type() -> ModeType {
        ModeType::Writeable
    }

    fn mode_type() -> (r: ModeType) {
        ModeType::Writeable
    }

    fn is_read_only() -> (r: bool) {
        false
    }
}

impl Mode for Transactional {
    open spec fn spec_mode_type() -> ModeType {
        ModeType::Transactional
    }

    fn mode_type() -> (r: ModeType) {
        ModeType::Transactional
    }

    fn is_read_only() -> (r: bool) {
        false
    }
}

impl IsWriteable for Writeable {
    proof fn lemma_writeable() {
    }
}

impl IsWriteable for Transactional {
    proof fn lemma_writeable() {
    }
}

impl IsSecondary for Secondary {
    proof fn lemma_secondary() {
    }
}

} // verus!
