//! How the cache and what it holds are written to a text.

use vstd::prelude::*;

use crate::cache::{CacheEntry, CacheEntryView, PersistentCache, PersistentCacheView};
use crate::codec::Stored;
use crate::fingerprint::{Fingerprint, FingerprintView};
use crate::path::{FilePath, FilePathView, Step, StepView};

verus! {

/// A change of a path: a mark, and the name that goes with it.
impl Stored for Step {
    open spec fn written(value: StepView) -> Seq<char> {
        match value {
            StepView::Up => seq!['u'],
            StepView::Into(name) => seq!['i'] + <String as Stored>::written(name),
            StepView::Extension(name) => seq!['e'] + <String as Stored>::written(name),
        }
    }

    open spec fn read(text: Seq<char>) -> Option<(StepView, Seq<char>)> {
        if text.len() == 0 {
            None
        } else if text[0] == 'u' {
            Some((StepView::Up, text.skip(1)))
        } else if text[0] == 'i' {
            match <String as Stored>::read(text.skip(1)) {
                Some((name, rest)) => Some((StepView::Into(name), rest)),
                None => None,
            }
        } else if text[0] == 'e' {
            match <String as Stored>::read(text.skip(1)) {
                Some((name, rest)) => Some((StepView::Extension(name), rest)),
                None => None,
            }
        } else {
            None
        }
    }

    open spec fn fits(value: StepView) -> bool {
        match value {
            StepView::Up => true,
            StepView::Into(name) => <String as Stored>::fits(name),
            StepView::Extension(name) => <String as Stored>::fits(name),
        }
    }

    proof fn law_read_gives_back(value: StepView, rest: Seq<char>) {
        let text = Self::written(value) + rest;
        match value {
            StepView::Up => {
                assert(text.skip(1) == rest);
            },
            StepView::Into(name) => {
                <String as Stored>::law_read_gives_back(name, rest);
                assert(text.skip(1) == <String as Stored>::written(name) + rest);
            },
            StepView::Extension(name) => {
                <String as Stored>::law_read_gives_back(name, rest);
                assert(text.skip(1) == <String as Stored>::written(name) + rest);
            },
        }
    }

    fn write_to(&self, out: &mut String) {
        match self {
            Step::Up => {
                out.push('u');
            },
            Step::Into(name) => {
                out.push('i');
                name.write_to(out);
            },
            Step::Extension(name) => {
                out.push('e');
                name.write_to(out);
            },
        }
        assert(out@ == old(out)@ + Self::written(self.deep_view()));
    }

    fn read_from(chars: &Vec<char>, from: usize) -> (res: Option<(Step, usize)>) {
        let ghost rest = chars@.skip(from as int);
        if from == chars.len() {
            return None;
        }
        let mark = chars[from];
        assert(rest[0] == mark);
        assert(rest.skip(1) == chars@.skip(from + 1));
        if mark == 'u' {
            Some((Step::Up, from + 1))
        } else if mark == 'i' {
            match <String as Stored>::read_from(chars, from + 1) {
                Some((name, to)) => Some((Step::Into(name), to)),
                None => None,
            }
        } else if mark == 'e' {
            match <String as Stored>::read_from(chars, from + 1) {
                Some((name, to)) => Some((Step::Extension(name), to)),
                None => None,
            }
        } else {
            None
        }
    }
}

/// A path: its text, then its changes.
impl Stored for FilePath {
    open spec fn written(value: FilePathView) -> Seq<char> {
        <String as Stored>::written(value.text) + <Vec<Step> as Stored>::written(value.steps)
    }

    open spec fn read(text: Seq<char>) -> Option<(FilePathView, Seq<char>)> {
        match <String as Stored>::read(text) {
            None => None,
            Some((text, rest0)) => match <Vec<Step> as Stored>::read(rest0) {
                None => None,
                Some((steps, rest1)) => Some((FilePathView { text, steps }, rest1)),
            },
        }
    }

    open spec fn fits(value: FilePathView) -> bool {
        &&& <String as Stored>::fits(value.text)
        &&& <Vec<Step> as Stored>::fits(value.steps)
    }

    proof fn law_read_gives_back(value: FilePathView, rest: Seq<char>) {
        let tail2 = rest;
        let tail1 = <Vec<Step> as Stored>::written(value.steps) + tail2;
        <Vec<Step> as Stored>::law_read_gives_back(value.steps, tail2);
        let tail0 = <String as Stored>::written(value.text) + tail1;
        <String as Stored>::law_read_gives_back(value.text, tail1);
        assert(Self::written(value) + rest == tail0);
    }

    fn write_to(&self, out: &mut String) {
        self.text.write_to(out);
        self.steps.write_to(out);
        assert(out@ == old(out)@ + Self::written(self.deep_view()));
    }

    fn read_from(chars: &Vec<char>, from: usize) -> (res: Option<(FilePath, usize)>) {
        let (text, at0) = match <String as Stored>::read_from(chars, from) {
            Some(read) => read,
            None => {
                return None;
            },
        };
        let (steps, at1) = match <Vec<Step> as Stored>::read_from(chars, at0) {
            Some(read) => read,
            None => {
                return None;
            },
        };
        Some((FilePath { text, steps }, at1))
    }
}

/// A library: its name, its version, its file and its time.
impl Stored for Fingerprint {
    open spec fn written(value: FingerprintView) -> Seq<char> {
        <String as Stored>::written(value.libname) + <Option<String> as Stored>::written(
            value.version,
        ) + <FilePath as Stored>::written(value.rlib) + <i128 as Stored>::written(value.mtime)
    }

    open spec fn read(text: Seq<char>) -> Option<(FingerprintView, Seq<char>)> {
        match <String as Stored>::read(text) {
            None => None,
            Some((libname, rest0)) => match <Option<String> as Stored>::read(rest0) {
                None => None,
                Some((version, rest1)) => match <FilePath as Stored>::read(rest1) {
                    None => None,
                    Some((rlib, rest2)) => match <i128 as Stored>::read(rest2) {
                        None => None,
                        Some((mtime, rest3)) => Some(
                            (FingerprintView { libname, version, rlib, mtime }, rest3),
                        ),
                    },
                },
            },
        }
    }

    open spec fn fits(value: FingerprintView) -> bool {
        &&& <String as Stored>::fits(value.libname)
        &&& <Option<String> as Stored>::fits(value.version)
        &&& <FilePath as Stored>::fits(value.rlib)
        &&& <i128 as Stored>::fits(value.mtime)
    }

    proof fn law_read_gives_back(value: FingerprintView, rest: Seq<char>) {
        let tail4 = rest;
        let tail3 = <i128 as Stored>::written(value.mtime) + tail4;
        <i128 as Stored>::law_read_gives_back(value.mtime, tail4);
        let tail2 = <FilePath as Stored>::written(value.rlib) + tail3;
        <FilePath as Stored>::law_read_gives_back(value.rlib, tail3);
        let tail1 = <Option<String> as Stored>::written(value.version) + tail2;
        <Option<String> as Stored>::law_read_gives_back(value.version, tail2);
        let tail0 = <String as Stored>::written(value.libname) + tail1;
        <String as Stored>::law_read_gives_back(value.libname, tail1);
        assert(Self::written(value) + rest == tail0);
    }

    fn write_to(&self, out: &mut String) {
        self.libname.write_to(out);
        self.version.write_to(out);
        self.rlib.write_to(out);
        self.mtime.write_to(out);
        assert(out@ == old(out)@ + Self::written(self.deep_view()));
    }

    fn read_from(chars: &Vec<char>, from: usize) -> (res: Option<(Fingerprint, usize)>) {
        let (libname, at0) = match <String as Stored>::read_from(chars, from) {
            Some(read) => read,
            None => {
                return None;
            },
        };
        let (version, at1) = match <Option<String> as Stored>::read_from(chars, at0) {
            Some(read) => read,
            None => {
                return None;
            },
        };
        let (rlib, at2) = match <FilePath as Stored>::read_from(chars, at1) {
            Some(read) => read,
            None => {
                return None;
            },
        };
        let (mtime, at3) = match <i128 as Stored>::read_from(chars, at2) {
            Some(read) => read,
            None => {
                return None;
            },
        };
        Some((Fingerprint { libname, version, rlib, mtime }, at3))
    }
}

/// An entry: its key, its hash and its libraries.
impl Stored for CacheEntry {
    open spec fn written(value: CacheEntryView) -> Seq<char> {
        <String as Stored>::written(value.key) + <u64 as Stored>::written(value.hash) + <Vec<
            Fingerprint,
        > as Stored>::written(value.fingerprints)
    }

    open spec fn read(text: Seq<char>) -> Option<(CacheEntryView, Seq<char>)> {
        match <String as Stored>::read(text) {
            None => None,
            Some((key, rest0)) => match <u64 as Stored>::read(rest0) {
                None => None,
                Some((hash, rest1)) => match <Vec<Fingerprint> as Stored>::read(rest1) {
                    None => None,
                    Some((fingerprints, rest2)) => Some(
                        (CacheEntryView { key, hash, fingerprints }, rest2),
                    ),
                },
            },
        }
    }

    open spec fn fits(value: CacheEntryView) -> bool {
        &&& <String as Stored>::fits(value.key)
        &&& <u64 as Stored>::fits(value.hash)
        &&& <Vec<Fingerprint> as Stored>::fits(value.fingerprints)
    }

    proof fn law_read_gives_back(value: CacheEntryView, rest: Seq<char>) {
        let tail3 = rest;
        let tail2 = <Vec<Fingerprint> as Stored>::written(value.fingerprints) + tail3;
        <Vec<Fingerprint> as Stored>::law_read_gives_back(value.fingerprints, tail3);
        let tail1 = <u64 as Stored>::written(value.hash) + tail2;
        <u64 as Stored>::law_read_gives_back(value.hash, tail2);
        let tail0 = <String as Stored>::written(value.key) + tail1;
        <String as Stored>::law_read_gives_back(value.key, tail1);
        assert(Self::written(value) + rest == tail0);
    }

    fn write_to(&self, out: &mut String) {
        self.key.write_to(out);
        self.hash.write_to(out);
        self.fingerprints.write_to(out);
        assert(out@ == old(out)@ + Self::written(self.deep_view()));
    }

    fn read_from(chars: &Vec<char>, from: usize) -> (res: Option<(CacheEntry, usize)>) {
        let (key, at0) = match <String as Stored>::read_from(chars, from) {
            Some(read) => read,
            None => {
                return None;
            },
        };
        let (hash, at1) = match <u64 as Stored>::read_from(chars, at0) {
            Some(read) => read,
            None => {
                return None;
            },
        };
        let (fingerprints, at2) = match <Vec<Fingerprint> as Stored>::read_from(chars, at1) {
            Some(read) => read,
            None => {
                return None;
            },
        };
        Some((CacheEntry { key, hash, fingerprints }, at2))
    }
}

/// A cache: its version, then its entries.
impl Stored for PersistentCache {
    open spec fn written(value: PersistentCacheView) -> Seq<char> {
        <u64 as Stored>::written(value.cache_version) + <Vec<CacheEntry> as Stored>::written(
            value.entries,
        )
    }

    open spec fn read(text: Seq<char>) -> Option<(PersistentCacheView, Seq<char>)> {
        match <u64 as Stored>::read(text) {
            None => None,
            Some((cache_version, rest0)) => match <Vec<CacheEntry> as Stored>::read(rest0) {
                None => None,
                Some((entries, rest1)) => Some(
                    (PersistentCacheView { cache_version, entries }, rest1),
                ),
            },
        }
    }

    open spec fn fits(value: PersistentCacheView) -> bool {
        &&& <u64 as Stored>::fits(value.cache_version)
        &&& <Vec<CacheEntry> as Stored>::fits(value.entries)
    }

    proof fn law_read_gives_back(value: PersistentCacheView, rest: Seq<char>) {
        let tail2 = rest;
        let tail1 = <Vec<CacheEntry> as Stored>::written(value.entries) + tail2;
        <Vec<CacheEntry> as Stored>::law_read_gives_back(value.entries, tail2);
        let tail0 = <u64 as Stored>::written(value.cache_version) + tail1;
        <u64 as Stored>::law_read_gives_back(value.cache_version, tail1);
        assert(Self::written(value) + rest == tail0);
    }

    fn write_to(&self, out: &mut String) {
        self.cache_version.write_to(out);
        self.entries.write_to(out);
        assert(out@ == old(out)@ + Self::written(self.deep_view()));
    }

    fn read_from(chars: &Vec<char>, from: usize) -> (res: Option<(PersistentCache, usize)>) {
        let (cache_version, at0) = match <u64 as Stored>::read_from(chars, from) {
            Some(read) => read,
            None => {
                return None;
            },
        };
        let (entries, at1) = match <Vec<CacheEntry> as Stored>::read_from(chars, at0) {
            Some(read) => read,
            None => {
                return None;
            },
        };
        Some((PersistentCache { cache_version, entries }, at1))
    }
}

} // verus!
