//! Where the linker put the sections of the kernel image.

use vstd::prelude::*;
use crate::memory::page_tables::XWRMode;
use crate::memory::{minimum_amount_of_pages, pages_for};
use crate::processes::loader::MappingDescription;

verus! {

/// The bounds of the sections of the kernel image and of the heap behind it.
#[derive(Clone, Copy, PartialEq, Eq, Debug, Structural)]
pub struct LinkerInformation {
    pub text_start: u64,
    pub text_end: u64,
    pub rodata_start: u64,
    pub rodata_end: u64,
    pub data_start: u64,
    pub data_end: u64,
    pub heap_start: u64,
    pub heap_size: u64,
    pub eh_frame_start: u64,
    pub eh_frame_size: u64,
}

impl LinkerInformation {
    /// No section ends before it starts.
    pub open spec fn wf(&self) -> bool {
        &&& self.text_start <= self.text_end
        &&& self.rodata_start <= self.rodata_end
        &&& self.data_start <= self.data_end
    }

    /// The sections as ranges of the kernel, each with the privileges that its
    /// content asks for: text to read and execute, read-only data to read,
    /// data to read and write.
    pub fn all_mappings(&self) -> (mappings: Vec<MappingDescription>)
        requires
            self.wf(),
        ensures
            mappings@ == seq![
                MappingDescription {
                    virtual_address_start: self.text_start,
                    pages: pages_for(self.text_end - self.text_start) as u64,
                    privileges: XWRMode::ReadExecute,
                },
                MappingDescription {
                    virtual_address_start: self.rodata_start,
                    pages: pages_for(self.rodata_end - self.rodata_start) as u64,
                    privileges: XWRMode::ReadOnly,
                },
                MappingDescription {
                    virtual_address_start: self.data_start,
                    pages: pages_for(self.data_end - self.data_start) as u64,
                    privileges: XWRMode::ReadWrite,
                },
            ],
    {
        let mut mappings: Vec<MappingDescription> = Vec::new();
        mappings.push(
            MappingDescription {
                virtual_address_start: self.text_start,
                pages: minimum_amount_of_pages(self.text_size()),
                privileges: XWRMode::ReadExecute,
            },
        );
        mappings.push(
            MappingDescription {
                virtual_address_start: self.rodata_start,
                pages: minimum_amount_of_pages(self.rodata_size()),
                privileges: XWRMode::ReadOnly,
            },
        );
        mappings.push(
            MappingDescription {
                virtual_address_start: self.data_start,
                pages: minimum_amount_of_pages(self.data_size()),
                privileges: XWRMode::ReadWrite,
            },
        );
        assert(mappings@ =~= seq![
            MappingDescription {
                virtual_address_start: self.text_start,
                pages: pages_for(self.text_end - self.text_start) as u64,
                privileges: XWRMode::ReadExecute,
            },
            MappingDescription {
                virtual_address_start: self.rodata_start,
                pages: pages_for(self.rodata_end - self.rodata_start) as u64,
                privileges: XWRMode::ReadOnly,
            },
            MappingDescription {
                virtual_address_start: self.data_start,
                pages: pages_for(self.data_end - self.data_start) as u64,
                privileges: XWRMode::ReadWrite,
            },
        ]);
        mappings
    }

    /// Bytes of the text section.
    pub fn text_size(&self) -> (size: u64)
        requires
            self.wf(),
        ensures
            size == self.text_end - self.text_start,
    {
        self.text_end - self.text_start
    }

    /// Bytes of the read-only data section.
    pub fn rodata_size(&self) -> (size: u64)
        requires
            self.wf(),
        ensures
            size == self.rodata_end - self.rodata_start,
    {
        self.rodata_end - self.rodata_start
    }

    /// Bytes of the data section.
    pub fn data_size(&self) -> (size: u64)
        requires
            self.wf(),
        ensures
            size == self.data_end - self.data_start,
    {
        self.data_end - self.data_start
    }
}

impl Default for LinkerInformation {
    /// The information with every bound zero.
    fn default() -> (information: Self)
        ensures
            information.wf(),
            information.text_start == 0 && information.text_end == 0,
            information.rodata_start == 0 && information.rodata_end == 0,
            information.data_start == 0 && information.data_end == 0,
            information.heap_start == 0 && information.heap_size == 0,
            information.eh_frame_start == 0 && information.eh_frame_size == 0,
    {
        LinkerInformation {
            text_start: 0,
            text_end: 0,
            rodata_start: 0,
            rodata_end: 0,
            data_start: 0,
            data_end: 0,
            heap_start: 0,
            heap_size: 0,
            eh_frame_start: 0,
            eh_frame_size: 0,
        }
    }
}

} // verus!
