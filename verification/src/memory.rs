//! The guard that keeps a model from being loaded into too little memory.

use vstd::prelude::*;

use crate::error::PocketError;
use crate::text::{decimal, decimal_text, digit_char, digit_text};
use crate::text::{law_decimal_writes_the_number, written_number};

verus! {

/// The largest model size that a machine with `total_ram` bytes of memory may load: four
/// fifths of the memory.
pub open spec fn safety_threshold(total_ram: int) -> int {
    total_ram * 4 / 5
}

/// A number of bytes in hundredths of a gigabyte (of 2 to the 30 bytes), rounded to the
/// nearest hundredth, a tie to the even one.
pub open spec fn gigabyte_hundredths(bytes: nat) -> nat {
    let whole = bytes * 100 / 0x4000_0000;
    let rest = bytes * 100 % 0x4000_0000;
    if rest > 0x2000_0000 || rest == 0x2000_0000 && whole % 2 == 1 {
        whole + 1
    } else {
        whole
    }
}

/// A number of bytes in gigabytes, with two decimals.
pub open spec fn gigabytes(bytes: nat) -> Seq<char> {
    let hundredths = gigabyte_hundredths(bytes);
    decimal(hundredths / 100) + "."@ + seq![
        digit_char((hundredths / 10 % 10) as int),
        digit_char((hundredths % 10) as int),
    ]
}

/// What the user is told when the model is too large.
pub open spec fn refusal_text(file_size: nat, total_ram: nat) -> Seq<char> {
    "CRITICAL: Quantized model size ("@ + gigabytes(file_size)
        + " GB) exceeds 80% of physical system RAM ("@ + gigabytes(total_ram)
        + " GB).\nLoading this model may freeze or destabilize your operating system.\nUse the '--force-ram' flag to bypass this hardware safety interlock."@
}

/// What the user is told when the size of the model cannot be found out.
pub open spec fn unreadable_text(model_path: Seq<char>, reason: Seq<char>) -> Seq<char> {
    "Failed to read model file size from "@ + model_path + ". Error: "@ + reason
}

/// A number of bytes in hundredths of a gigabyte.
fn hundredths_of_gigabytes(bytes: u64) -> (hundredths: u64)
    ensures
        hundredths == gigabyte_hundredths(bytes as nat),
{
    let scaled: u128 = bytes as u128 * 100;
    let whole: u128 = scaled / 0x4000_0000;
    let rest: u128 = scaled % 0x4000_0000;
    if rest > 0x2000_0000 || (rest == 0x2000_0000 && whole % 2 == 1) {
        (whole + 1) as u64
    } else {
        whole as u64
    }
}

/// A number of bytes in gigabytes, with two decimals.
pub fn gigabytes_text(bytes: u64) -> (text: String)
    ensures
        text@ == gigabytes(bytes as nat),
{
    let hundredths: u64 = hundredths_of_gigabytes(bytes);
    let mut text: String = decimal_text(hundredths / 100);
    text.append(".");
    text.append(digit_text(hundredths / 10 % 10));
    text.append(digit_text(hundredths % 10));
    assert(text@ =~= gigabytes(bytes as nat));
    text
}

/// The largest model size that a machine with `total_ram` bytes of memory may load.
pub fn ram_threshold(total_ram: u64) -> (threshold: u64)
    ensures
        threshold == safety_threshold(total_ram as int),
{
    (total_ram as u128 * 4 / 5) as u64
}

/// The check before a model is loaded: its file must not exceed 80% of the physical memory.
/// `file_size` is the size of the model file, or why it could not be read; `force_ram`
/// switches the check off.
pub fn verify_ram_safety(
    model_path: &str,
    file_size: Result<u64, String>,
    total_ram: u64,
    force_ram: bool,
) -> (result: Result<(), PocketError>)
    ensures
        match result {
            Ok(_) => force_ram || (file_size matches Ok(size) && size * 5 <= total_ram * 4),
            Err(PocketError::ConfigError(text)) => {
                &&& !force_ram
                &&& file_size matches Err(reason) && text@ == unreadable_text(
                    model_path@,
                    reason@,
                )
            },
            Err(PocketError::MemoryInsufficient(text)) => {
                &&& !force_ram
                &&& file_size matches Ok(size) && size * 5 > total_ram * 4 && text@
                    == refusal_text(size as nat, total_ram as nat)
            },
            Err(_) => false,
        },
{
    if force_ram {
        return Ok(());
    }
    match file_size {
        Err(reason) => {
            let mut text: String = "Failed to read model file size from ".to_owned();
            text.append(model_path);
            text.append(". Error: ");
            text.append(reason.as_str());
            Err(PocketError::ConfigError(text))
        },
        Ok(size) => {
            if size > ram_threshold(total_ram) {
                let mut text: String = "CRITICAL: Quantized model size (".to_owned();
                text.append(gigabytes_text(size).as_str());
                text.append(" GB) exceeds 80% of physical system RAM (");
                text.append(gigabytes_text(total_ram).as_str());
                text.append(" GB).\nLoading this model may freeze or destabilize your operating system.\nUse the '--force-ram' flag to bypass this hardware safety interlock.");
                Err(PocketError::MemoryInsufficient(text))
            } else {
                Ok(())
            }
        },
    }
}

/// The threshold is four fifths of the memory, in whole bytes.
pub proof fn law_the_threshold_is_four_fifths(total_ram: nat)
    ensures
        safety_threshold(total_ram as int) * 5 <= total_ram * 4 < (safety_threshold(
            total_ram as int,
        ) + 1) * 5,
{
}

/// Gigabytes are written with the two decimals that lie nearest, and with the even one of two
/// that lie equally near.
pub proof fn law_gigabytes_are_written_to_the_nearest_hundredth(bytes: nat)
    ensures
        exists|whole: Seq<char>, decimals: Seq<char>|
            {
                let written = 100 * written_number(whole) + written_number(decimals);
                let off = 2 * (written * 0x4000_0000 - bytes * 100);
                &&& gigabytes(bytes) == #[trigger] (whole + "."@ + decimals)
                &&& decimals.len() == 2
                &&& forall|i: int| 0 <= i < 2 ==> '0' <= #[trigger] decimals[i] <= '9'
                &&& forall|i: int| 0 <= i < whole.len() ==> '0' <= #[trigger] whole[i] <= '9'
                &&& whole.len() > 0
                &&& whole[0] == '0' ==> whole.len() == 1
                &&& -0x4000_0000 <= off <= 0x4000_0000
                &&& off == 0x4000_0000 || off == -0x4000_0000 ==> written % 2 == 0
            },
{
    let hundredths = gigabyte_hundredths(bytes);
    let whole = decimal(hundredths / 100);
    let decimals = seq![
        digit_char((hundredths / 10 % 10) as int),
        digit_char((hundredths % 10) as int),
    ];
    law_decimal_writes_the_number(hundredths / 100);
    assert(gigabytes(bytes) == whole + "."@ + decimals);
    let tenth = decimals.drop_last();
    assert(tenth.drop_last().len() == 0);
    assert(written_number(tenth.drop_last()) == 0);
    assert(written_number(tenth) == hundredths / 10 % 10);
    assert(written_number(decimals) == 10 * (hundredths / 10 % 10) + hundredths % 10);
    if hundredths / 100 > 0 {
        assert(whole[0] != '0');
    }
}

/// A refusal names the size of the model, then that of the memory, and the way around it.
pub proof fn law_refusals_name_both_sizes(file_size: nat, total_ram: nat)
    ensures
        refusal_text(file_size, total_ram) == "CRITICAL: Quantized model size ("@ + gigabytes(
            file_size,
        ) + " GB) exceeds 80% of physical system RAM ("@ + gigabytes(total_ram)
            + " GB).\nLoading this model may freeze or destabilize your operating system.\nUse the '--force-ram' flag to bypass this hardware safety interlock."@,
{
}

/// Where the size cannot be read, the path and the reason are named in full.
pub proof fn law_unreadable_sizes_name_path_and_reason(model_path: Seq<char>, reason: Seq<char>)
    ensures
        unreadable_text(model_path, reason) == "Failed to read model file size from "@ + model_path
            + ". Error: "@ + reason,
{
}

} // verus!
