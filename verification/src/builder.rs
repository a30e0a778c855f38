use crate::cli::CLIArgs;
use crate::engine::{RotateMethod, RotationEngine, Tee};
use crate::history::{
    all_valid, contains_ts, marked_compressed, parsed_compressed_ts, parsed_ts, scan,
    sorted_strict,
};
use crate::naming::{ext_of, file_name, file_name_of, split_name, stem_of};
use crate::timestamp::Timestamp;
use vstd::prelude::*;

verus! {

/// Why a configuration was rejected before any file work began. Failures
/// of the filesystem itself (an unwritable parent, a path that is a
/// directory) are the caller's to detect and report.
#[derive(Clone, Copy, Debug, PartialEq, Eq, Structural)]
pub enum PipeLoggerBuilderError {
    /// The rotation threshold is under 2 bytes: it would rotate on every
    /// write or be meaningless.
    RotateFileSizeTooSmall,
    /// The max count of log files is 0.
    CountTooSmall,
    /// The log path has no file-name component.
    FileNameMissing,
}

/// Why a command line could not be turned into a builder.
#[derive(Clone, Copy, Debug, PartialEq, Eq, Structural)]
pub enum FromCliError {
    /// The rotation size is not a recognizable byte size.
    RotateSizeInvalid,
    /// The rotation size does not fit in 64 bits.
    RotateSizeTooLarge,
}

/// The number of bytes a human-readable size string denotes, if any.
pub uninterp spec fn byte_size_of(s: Seq<char>) -> Option<u128>;

/// Relies on `byte_unit::Byte::from_str` and `Byte::get_bytes`: parses a
/// human-readable size such as `10M`, `8 KiB` or `123` into its number of
/// bytes. The result depends on the string alone.
#[verifier::external_body]
fn parse_byte_size(s: &str) -> (r: Option<u128>)
    ensures
        r == byte_size_of(s@),
{
    match byte_unit::Byte::from_str(s) {
        Ok(b) => Some(b.get_bytes()),
        Err(_) => None,
    }
}

/// Collects a logger configuration before any file is touched: the path
/// first, the policies one by one, then one validation in
/// [`PipeLoggerBuilder::build`].
#[derive(Debug)]
pub struct PipeLoggerBuilder {
    /// The log path, as raw bytes.
    pub log_path: Vec<u8>,
    pub rotate: Option<RotateMethod>,
    pub count: Option<usize>,
    pub compress: bool,
    pub tee: Option<Tee>,
}

impl PipeLoggerBuilder {
    /// The threshold invariant: at least 2 bytes when a rotation policy is
    /// set.
    pub open spec fn rotate_ok(self) -> bool {
        match self.rotate {
            Some(RotateMethod::FileSize(t)) => t >= 2,
            None => true,
        }
    }

    /// The retention invariant: a positive count when one is set.
    pub open spec fn count_ok(self) -> bool {
        match self.count {
            Some(c) => c >= 1,
            None => true,
        }
    }

    pub fn new(log_path: Vec<u8>) -> (b: PipeLoggerBuilder)
        ensures
            b.log_path@ == log_path@,
            b.rotate is None,
            b.count is None,
            !b.compress,
            b.tee is None,
    {
        PipeLoggerBuilder { log_path, rotate: None, count: None, compress: false, tee: None }
    }

    pub fn set_rotate(&mut self, rotate: Option<RotateMethod>)
        ensures
            *final(self) == (PipeLoggerBuilder { rotate, ..*old(self) }),
    {
        self.rotate = rotate;
    }

    pub fn set_count(&mut self, count: Option<usize>)
        ensures
            *final(self) == (PipeLoggerBuilder { count, ..*old(self) }),
    {
        self.count = count;
    }

    pub fn set_compress(&mut self, compress: bool)
        ensures
            *final(self) == (PipeLoggerBuilder { compress, ..*old(self) }),
    {
        self.compress = compress;
    }

    pub fn set_tee(&mut self, tee: Option<Tee>)
        ensures
            *final(self) == (PipeLoggerBuilder { tee, ..*old(self) }),
    {
        self.tee = tee;
    }

    pub fn rotate(&self) -> (r: Option<RotateMethod>)
        ensures
            r == self.rotate,
    {
        self.rotate
    }

    pub fn count(&self) -> (r: Option<usize>)
        ensures
            r == self.count,
    {
        self.count
    }

    pub fn compress(&self) -> (r: bool)
        ensures
            r == self.compress,
    {
        self.compress
    }

    pub fn tee(&self) -> (r: Option<Tee>)
        ensures
            r == self.tee,
    {
        self.tee
    }

    pub fn log_path(&self) -> (r: &Vec<u8>)
        ensures
            r@ == self.log_path@,
    {
        &self.log_path
    }

    /// Validates the configuration and builds the rotation engine,
    /// reconstructing the archive history from `dir_names`, the file
    /// names found beside the log file. A count or compression flag
    /// without a rotation policy is dropped as meaningless. The caller
    /// opens the live file itself and hands the engine only this listing.
    pub fn build(self, dir_names: &Vec<Vec<u8>>) -> (r: Result<
        RotationEngine,
        PipeLoggerBuilderError,
    >)
        ensures
            !self.rotate_ok() ==> r == Err::<RotationEngine, PipeLoggerBuilderError>(
                PipeLoggerBuilderError::RotateFileSizeTooSmall,
            ),
            self.rotate_ok() && !self.count_ok() ==> r == Err::<
                RotationEngine,
                PipeLoggerBuilderError,
            >(PipeLoggerBuilderError::CountTooSmall),
            self.rotate_ok() && self.count_ok() && file_name_of(self.log_path@).len() == 0 ==> r
                == Err::<RotationEngine, PipeLoggerBuilderError>(
                PipeLoggerBuilderError::FileNameMissing,
            ),
            self.rotate_ok() && self.count_ok() && file_name_of(self.log_path@).len() > 0 ==> (
            match r {
                Ok(e) => {
                    &&& e.wf()
                    &&& !e.must_rotate()
                    &&& e.current_size == 0
                    &&& e.stem@ == stem_of(file_name_of(self.log_path@))
                    &&& e.ext@ == ext_of(file_name_of(self.log_path@))
                    &&& e.rotate == self.rotate
                    &&& e.count == (if self.rotate is Some {
                        self.count
                    } else {
                        None
                    })
                    &&& e.compress == (self.rotate is Some && self.compress)
                    &&& e.tee == self.tee
                    &&& sorted_strict(e.history@)
                    &&& all_valid(e.history@)
                    &&& forall|ts: Timestamp|
                        #[trigger] contains_ts(e.history@, ts) <==> parsed_ts(
                            dir_names.deep_view(),
                            e.stem@,
                            e.ext@,
                            ts,
                        )
                    &&& forall|ts: Timestamp|
                        #[trigger] marked_compressed(e.history@, ts) <==> parsed_compressed_ts(
                            dir_names.deep_view(),
                            e.stem@,
                            e.ext@,
                            ts,
                        )
                },
                Err(_) => false,
            }),
    {
        if let Some(RotateMethod::FileSize(t)) = self.rotate {
            if t < 2 {
                return Err(PipeLoggerBuilderError::RotateFileSizeTooSmall);
            }
        }
        if let Some(c) = self.count {
            if c < 1 {
                return Err(PipeLoggerBuilderError::CountTooSmall);
            }
        }
        let name = file_name(&self.log_path);
        if name.len() == 0 {
            return Err(PipeLoggerBuilderError::FileNameMissing);
        }
        let (stem, ext) = split_name(&name);
        let history = scan(dir_names, &stem, &ext);
        let (count, compress) = match self.rotate {
            Some(_) => (self.count, self.compress),
            None => (None, false),
        };
        Ok(RotationEngine::new(stem, ext, self.rotate, count, compress, self.tee, history))
    }
}

/// Turns a parsed command line into a builder: the rotation size string
/// is read as a byte count, the retention count and
/// the compression flag matter only under a rotation policy, and the tee
/// target mirrors the logs to stderr under `--err`, to stdout otherwise.
pub fn from_cli(args: &CLIArgs) -> (r: Result<PipeLoggerBuilder, FromCliError>)
    ensures
        (match args@.rotate {
            None => match r {
                Ok(b) => {
                    &&& b.log_path@ == vstd::utf8::encode_utf8(args@.log_path)
                    &&& b.rotate is None
                    &&& b.count is None
                    &&& !b.compress
                    &&& b.tee == Some(
                        if args@.err {
                            Tee::Stderr
                        } else {
                            Tee::Stdout
                        },
                    )
                },
                Err(_) => false,
            },
            Some(s) => match byte_size_of(s) {
                None => r == Err::<PipeLoggerBuilder, FromCliError>(FromCliError::RotateSizeInvalid),
                Some(bytes) => if bytes > u64::MAX {
                    r == Err::<PipeLoggerBuilder, FromCliError>(FromCliError::RotateSizeTooLarge)
                } else {
                    match r {
                        Ok(b) => {
                            &&& b.log_path@ == vstd::utf8::encode_utf8(args@.log_path)
                            &&& b.rotate == Some(RotateMethod::FileSize(bytes as u64))
                            &&& b.count == args@.count
                            &&& b.compress == args@.compress
                            &&& b.tee == Some(
                                if args@.err {
                                    Tee::Stderr
                                } else {
                                    Tee::Stdout
                                },
                            )
                        },
                        Err(_) => false,
                    }
                },
            },
        }),
{
    let mut builder = PipeLoggerBuilder::new(args.log_path.as_str().as_bytes_vec());
    match &args.rotate {
        Some(r) => {
            match parse_byte_size(r.as_str()) {
                Some(bytes) => {
                    if bytes > u64::MAX as u128 {
                        return Err(FromCliError::RotateSizeTooLarge);
                    }
                    builder.set_rotate(Some(RotateMethod::FileSize(bytes as u64)));
                    builder.set_compress(args.compress);
                    builder.set_count(args.count);
                },
                None => {
                    return Err(FromCliError::RotateSizeInvalid);
                },
            }
        },
        None => {},
    }
    builder.set_tee(Some(if args.err { Tee::Stderr } else { Tee::Stdout }));
    Ok(builder)
}

} // verus!
