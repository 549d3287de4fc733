//! Zone files, and the readings they give. The zone files stand here rather than
//! being taken from the machine, so the parser is tested and not its settings.

use rars::civil::{civil_from_days, days_from_civil};
use rars::timestamp::{
    current_filetime, dos_time_to_unix, extracted_system_time, format_filetime_utc,
    source_dos_mtime, source_unix_mtime, unix_datetime, unix_to_dos_time, StoredTimestamp,
    TimeRefinement, UnixTime,
};
use rars::tzif::{zone_file, LocalType, TimeZone, ZoneFile};
use rars::version::ArchiveFamily;

const LONDON: &[u8] = b"TZif2\0\0\0\0\0\0\0\0\0\0\0\0\0\0\0\0\0\0\x08\0\0\0\x08\0\0\0\0\0\0\0\xf2\0\0\0\x08\0\0\0\
      \x11\x80\0\0\0\x9b&\xad\xa0\x9b\xd6\x05 \x9c\xcf0\xa0\x9d\xa4\xc3\xa0\x9e\x9c\x9d\xa0\x9f\
      \x97\x1a\xa0\xa0\x85\xba \xa1v\xfc\xa0\xa2e\x9c \xa3{\xc8\xa0\xa4N\xb8\xa0\xa5?\xfb \xa6\
      %` \xa7'\xc6 \xa8*, \xa8\xeb\xf8\xa0\xaa\0\xd3\xa0\xaa\xd5\x15 \xab\xe9\xf0 \xac\xc7l \xad\
      \xc9\xd2 \xae\xa7N \xaf\xa0y\xa0\xb0\x870 \xb1\x92\xd0\xa0\xb2pL\xa0\xb3r\xb2\xa0\xb4P.\xa0\
      \xb5IZ \xb60\x10\xa0\xb72v\xa0\xb8\x0f\xf2\xa0\xb9\x12X\xa0\xb9\xef\xd4\xa0\xba\xe9\0 \xbb\
      \xd8\xf1 \xbc\xdbW \xbd\xb8\xd3 \xbe\xb1\xfe\xa0\xbf\x98\xb5 \xc0\x9b\x1b \xc1x\x97 \xc2\
      z\xfd \xc3Xy \xc4Q\xa4\xa0\xc58[ \xc6:\xc1 \xc7X\xd6\xa0\xc7\xda\x09\xa0\xca\x16&\x90\xca\
      \x97Y\x90\xcb\xd1\x1e\x90\xccw;\x90\xcd\xb1\0\x90\xce`X\x10\xcf\x90\xe2\x90\xd0n^\x90\xd1\
      r\x16\x10\xd1\xfb2\x10\xd2i\xfe \xd3c)\xa0\xd4I\xe0 \xd5\x1e!\xa0\xd5B\xfd\x90\xd5\xdf\xe0\
      \x10\xd6N\xac \xd6\xfe\x03\xa0\xd8.\x8e \xd8\xf9\x95 \xda\x0ep \xda\xeb\xec \xdb\xe5\x17\
      \xa0\xdc\xcb\xce \xdd\xc4\xf9\xa0\xde\xb4\xea\xa0\xdf\xae\x16 \xe0\x94\xcc\xa0\xe1rH\xa0\
      \xe2kt \xe3R*\xa0\xe4T\x90\xa0\xe52\x0c\xa0\xe6=\xad \xe7\x1b) \xe8\x14T\xa0\xe8\xfb\x0b\
      \x20\xe9\xfdq \xea\xda\xed \xeb\xddS \xec\xba\xcf \xed\xb3\xfa\xa0\xee\x9a\xb1 \xef\x81g\xa0\
      \xf0\x9f} \xf1aI\xa0\xf2\x7f_ \xf3Jf \xf4_A \xf5!\x0d\xa0\xf6?# \xf7\0\xef\xa0\xf8\x1f\x05\
      \x20\xf8\xe0\xd1\xa0\xf9\xfe\xe7 \xfa\xc0\xb3\xa0\xfb\xe8\x03\xa0\xfc{\xab\xa0\xfd\xc7\xbbp\
      \x03p\xc6 \x04)X \x05P\xa8 \x06\x09: \x070\x8a \x07\xe9\x1c \x09\x10l \x09\xc8\xfe \x0a\xf0\
      N \x0b\xb2\x1a\xa0\x0c\xd00 \x0d\x91\xfc\xa0\x0e\xb0\x12 \x0fq\xde\xa0\x10\x99.\xa0\x11Q\
      \xc0\xa0\x12y\x10\xa0\x131\xa2\xa0\x14X\xf2\xa0\x15#\xeb\x90\x168\xc6\x90\x17\x03\xcd\x90\
      \x18\x18\xa8\x90\x18\xe3\xaf\x90\x19\xf8\x8a\x90\x1a\xc3\x91\x90\x1b\xe1\xa7\x10\x1c\xac\
      \xae\x10\x1d\xc1\x89\x10\x1e\x8c\x90\x10\x1f\xa1k\x10 lr\x10!\x81M\x10\x22LT\x10#a/\x10$\
      ,6\x10%JK\x90&\x0c\x18\x10'*-\x90'\xf54\x90)\x0a\x0f\x90)\xd5\x16\x90*\xe9\xf1\x90+\xb4\xf8\
      \x90,\xc9\xd3\x90-\x94\xda\x90.\xa9\xb5\x90/t\xbc\x900\x89\x97\x901]\xd9\x102r\xb4\x103=\
      \xbb\x104R\x96\x105\x1d\x9d\x1062x\x106\xfd\x7f\x108\x1b\x94\x908\xdda\x109\xfbv\x90:\xbd\
      C\x10;\xdbX\x90<\xa6_\x90=\xbb:\x90>\x86A\x90?\x9b\x1c\x90@f#\x90A\x849\x10BF\x05\x90Cd\x1b\
      \x10D%\xe7\x90EC\xfd\x10F\x05\xc9\x90G#\xdf\x10G\xee\xe6\x10I\x03\xc1\x10I\xce\xc8\x10J\xe3\
      \xa3\x10K\xae\xaa\x10L\xcc\xbf\x90M\x8e\x8c\x10N\xac\xa1\x90Onn\x10P\x8c\x83\x90QW\x8a\x90\
      Rle\x90S7l\x90TLG\x90U\x17N\x90V,)\x90V\xf70\x90X\x15F\x10X\xd7\x12\x90Y\xf5(\x10Z\xb6\xf4\
      \x90[\xd5\x0a\x10\x5c\xa0\x11\x10]\xb4\xec\x10^\x7f\xf3\x10_\x94\xce\x10`_\xd5\x10a}\xea\
      \x90b?\xb7\x10c]\xcc\x90d\x1f\x99\x10e=\xae\x90f\x08\xb5\x90g\x1d\x90\x90g\xe8\x97\x90h\xfd\
      r\x90i\xc8y\x90j\xddT\x90k\xa8[\x90l\xc6q\x10m\x88=\x90n\xa6S\x10oh\x1f\x90p\x865\x10qQ<\
      \x10rf\x17\x10s1\x1e\x10tE\xf9\x10u\x11\0\x10v/\x15\x90v\xf0\xe2\x10x\x0e\xf7\x90x\xd0\xc4\
      \x10y\xee\xd9\x90z\xb0\xa6\x10{\xce\xbb\x90|\x99\xc2\x90}\xae\x9d\x90~y\xa4\x90\x7f\x8e\x7f\
      \x90\x04\x01\x02\x01\x02\x01\x02\x01\x02\x01\x02\x01\x02\x01\x02\x01\x02\x01\x02\x01\x02\
      \x01\x02\x01\x02\x01\x02\x01\x02\x01\x02\x01\x02\x01\x02\x01\x02\x01\x02\x01\x02\x01\x02\
      \x01\x02\x01\x02\x01\x02\x01\x03\x01\x03\x01\x03\x01\x03\x01\x03\x01\x02\x01\x02\x01\x03\
      \x01\x02\x01\x02\x01\x02\x01\x02\x01\x02\x01\x02\x01\x02\x01\x02\x01\x02\x01\x02\x01\x02\
      \x01\x02\x01\x02\x01\x02\x01\x02\x01\x02\x01\x02\x01\x02\x01\x02\x01\x02\x01\x02\x01\x05\
      \x07\x01\x02\x01\x02\x01\x02\x01\x02\x01\x02\x01\x02\x01\x02\x01\x02\x01\x02\x06\x07\x06\
      \x07\x06\x07\x06\x07\x06\x07\x06\x07\x06\x07\x06\x07\x06\x07\x06\x07\x06\x07\x06\x07\x06\
      \x07\x06\x07\x06\x07\x06\x07\x06\x07\x06\x07\x06\x07\x06\x07\x06\x07\x06\x07\x06\x07\x06\
      \x07\x06\x07\x06\x07\x06\x07\x06\x07\x06\x07\x06\x07\x06\x07\x06\x07\x06\x07\x06\x07\x06\
      \x07\x06\x07\x06\x07\x06\x07\x06\x07\x06\x07\x06\x07\x06\x07\x06\x07\x06\x07\x06\x07\x06\
      \x07\x06\x07\x06\x07\x06\x07\x06\x07\x06\x07\x06\x07\x06\x07\x06\x07\x06\x07\x06\x07\x06\
      \x07\xff\xff\xff\xb5\0\0\0\0\x0e\x10\x01\x04\0\0\0\0\0\x08\0\0\x1c \x01\x0c\0\0\0\0\0\x08\
      \0\0\x0e\x10\0\x04\0\0\x0e\x10\x01\x04\0\0\0\0\0\x08LMT\0BST\0GMT\0BDST\0\0\x01\x01\x01\0\
      \0\x01\x01\0\0\0\0\0\0\x01\x01TZif2\0\0\0\0\0\0\0\0\0\0\0\0\0\0\0\0\0\0\x08\0\0\0\x08\0\0\
      \0\0\0\0\0\xf2\0\0\0\x08\0\0\0\x11\xff\xff\xff\xff\x1a]\x09\xcb\xff\xff\xff\xff\x9b&\xad\
      \xa0\xff\xff\xff\xff\x9b\xd6\x05 \xff\xff\xff\xff\x9c\xcf0\xa0\xff\xff\xff\xff\x9d\xa4\xc3\
      \xa0\xff\xff\xff\xff\x9e\x9c\x9d\xa0\xff\xff\xff\xff\x9f\x97\x1a\xa0\xff\xff\xff\xff\xa0\
      \x85\xba \xff\xff\xff\xff\xa1v\xfc\xa0\xff\xff\xff\xff\xa2e\x9c \xff\xff\xff\xff\xa3{\xc8\
      \xa0\xff\xff\xff\xff\xa4N\xb8\xa0\xff\xff\xff\xff\xa5?\xfb \xff\xff\xff\xff\xa6%` \xff\xff\
      \xff\xff\xa7'\xc6 \xff\xff\xff\xff\xa8*, \xff\xff\xff\xff\xa8\xeb\xf8\xa0\xff\xff\xff\xff\
      \xaa\0\xd3\xa0\xff\xff\xff\xff\xaa\xd5\x15 \xff\xff\xff\xff\xab\xe9\xf0 \xff\xff\xff\xff\
      \xac\xc7l \xff\xff\xff\xff\xad\xc9\xd2 \xff\xff\xff\xff\xae\xa7N \xff\xff\xff\xff\xaf\xa0\
      y\xa0\xff\xff\xff\xff\xb0\x870 \xff\xff\xff\xff\xb1\x92\xd0\xa0\xff\xff\xff\xff\xb2pL\xa0\
      \xff\xff\xff\xff\xb3r\xb2\xa0\xff\xff\xff\xff\xb4P.\xa0\xff\xff\xff\xff\xb5IZ \xff\xff\xff\
      \xff\xb60\x10\xa0\xff\xff\xff\xff\xb72v\xa0\xff\xff\xff\xff\xb8\x0f\xf2\xa0\xff\xff\xff\xff\
      \xb9\x12X\xa0\xff\xff\xff\xff\xb9\xef\xd4\xa0\xff\xff\xff\xff\xba\xe9\0 \xff\xff\xff\xff\
      \xbb\xd8\xf1 \xff\xff\xff\xff\xbc\xdbW \xff\xff\xff\xff\xbd\xb8\xd3 \xff\xff\xff\xff\xbe\
      \xb1\xfe\xa0\xff\xff\xff\xff\xbf\x98\xb5 \xff\xff\xff\xff\xc0\x9b\x1b \xff\xff\xff\xff\xc1\
      x\x97 \xff\xff\xff\xff\xc2z\xfd \xff\xff\xff\xff\xc3Xy \xff\xff\xff\xff\xc4Q\xa4\xa0\xff\
      \xff\xff\xff\xc58[ \xff\xff\xff\xff\xc6:\xc1 \xff\xff\xff\xff\xc7X\xd6\xa0\xff\xff\xff\xff\
      \xc7\xda\x09\xa0\xff\xff\xff\xff\xca\x16&\x90\xff\xff\xff\xff\xca\x97Y\x90\xff\xff\xff\xff\
      \xcb\xd1\x1e\x90\xff\xff\xff\xff\xccw;\x90\xff\xff\xff\xff\xcd\xb1\0\x90\xff\xff\xff\xff\
      \xce`X\x10\xff\xff\xff\xff\xcf\x90\xe2\x90\xff\xff\xff\xff\xd0n^\x90\xff\xff\xff\xff\xd1\
      r\x16\x10\xff\xff\xff\xff\xd1\xfb2\x10\xff\xff\xff\xff\xd2i\xfe \xff\xff\xff\xff\xd3c)\xa0\
      \xff\xff\xff\xff\xd4I\xe0 \xff\xff\xff\xff\xd5\x1e!\xa0\xff\xff\xff\xff\xd5B\xfd\x90\xff\
      \xff\xff\xff\xd5\xdf\xe0\x10\xff\xff\xff\xff\xd6N\xac \xff\xff\xff\xff\xd6\xfe\x03\xa0\xff\
      \xff\xff\xff\xd8.\x8e \xff\xff\xff\xff\xd8\xf9\x95 \xff\xff\xff\xff\xda\x0ep \xff\xff\xff\
      \xff\xda\xeb\xec \xff\xff\xff\xff\xdb\xe5\x17\xa0\xff\xff\xff\xff\xdc\xcb\xce \xff\xff\xff\
      \xff\xdd\xc4\xf9\xa0\xff\xff\xff\xff\xde\xb4\xea\xa0\xff\xff\xff\xff\xdf\xae\x16 \xff\xff\
      \xff\xff\xe0\x94\xcc\xa0\xff\xff\xff\xff\xe1rH\xa0\xff\xff\xff\xff\xe2kt \xff\xff\xff\xff\
      \xe3R*\xa0\xff\xff\xff\xff\xe4T\x90\xa0\xff\xff\xff\xff\xe52\x0c\xa0\xff\xff\xff\xff\xe6\
      =\xad \xff\xff\xff\xff\xe7\x1b) \xff\xff\xff\xff\xe8\x14T\xa0\xff\xff\xff\xff\xe8\xfb\x0b\
      \x20\xff\xff\xff\xff\xe9\xfdq \xff\xff\xff\xff\xea\xda\xed \xff\xff\xff\xff\xeb\xddS \xff\xff\
      \xff\xff\xec\xba\xcf \xff\xff\xff\xff\xed\xb3\xfa\xa0\xff\xff\xff\xff\xee\x9a\xb1 \xff\xff\
      \xff\xff\xef\x81g\xa0\xff\xff\xff\xff\xf0\x9f} \xff\xff\xff\xff\xf1aI\xa0\xff\xff\xff\xff\
      \xf2\x7f_ \xff\xff\xff\xff\xf3Jf \xff\xff\xff\xff\xf4_A \xff\xff\xff\xff\xf5!\x0d\xa0\xff\
      \xff\xff\xff\xf6?# \xff\xff\xff\xff\xf7\0\xef\xa0\xff\xff\xff\xff\xf8\x1f\x05 \xff\xff\xff\
      \xff\xf8\xe0\xd1\xa0\xff\xff\xff\xff\xf9\xfe\xe7 \xff\xff\xff\xff\xfa\xc0\xb3\xa0\xff\xff\
      \xff\xff\xfb\xe8\x03\xa0\xff\xff\xff\xff\xfc{\xab\xa0\xff\xff\xff\xff\xfd\xc7\xbbp\0\0\0\
      \0\x03p\xc6 \0\0\0\0\x04)X \0\0\0\0\x05P\xa8 \0\0\0\0\x06\x09: \0\0\0\0\x070\x8a \0\0\0\0\
      \x07\xe9\x1c \0\0\0\0\x09\x10l \0\0\0\0\x09\xc8\xfe \0\0\0\0\x0a\xf0N \0\0\0\0\x0b\xb2\x1a\
      \xa0\0\0\0\0\x0c\xd00 \0\0\0\0\x0d\x91\xfc\xa0\0\0\0\0\x0e\xb0\x12 \0\0\0\0\x0fq\xde\xa0\
      \0\0\0\0\x10\x99.\xa0\0\0\0\0\x11Q\xc0\xa0\0\0\0\0\x12y\x10\xa0\0\0\0\0\x131\xa2\xa0\0\0\
      \0\0\x14X\xf2\xa0\0\0\0\0\x15#\xeb\x90\0\0\0\0\x168\xc6\x90\0\0\0\0\x17\x03\xcd\x90\0\0\0\
      \0\x18\x18\xa8\x90\0\0\0\0\x18\xe3\xaf\x90\0\0\0\0\x19\xf8\x8a\x90\0\0\0\0\x1a\xc3\x91\x90\
      \0\0\0\0\x1b\xe1\xa7\x10\0\0\0\0\x1c\xac\xae\x10\0\0\0\0\x1d\xc1\x89\x10\0\0\0\0\x1e\x8c\
      \x90\x10\0\0\0\0\x1f\xa1k\x10\0\0\0\0 lr\x10\0\0\0\0!\x81M\x10\0\0\0\0\x22LT\x10\0\0\0\0\
      #a/\x10\0\0\0\0$,6\x10\0\0\0\0%JK\x90\0\0\0\0&\x0c\x18\x10\0\0\0\0'*-\x90\0\0\0\0'\xf54\x90\
      \0\0\0\0)\x0a\x0f\x90\0\0\0\0)\xd5\x16\x90\0\0\0\0*\xe9\xf1\x90\0\0\0\0+\xb4\xf8\x90\0\0\
      \0\0,\xc9\xd3\x90\0\0\0\0-\x94\xda\x90\0\0\0\0.\xa9\xb5\x90\0\0\0\0/t\xbc\x90\0\0\0\00\x89\
      \x97\x90\0\0\0\01]\xd9\x10\0\0\0\02r\xb4\x10\0\0\0\03=\xbb\x10\0\0\0\04R\x96\x10\0\0\0\0\
      5\x1d\x9d\x10\0\0\0\062x\x10\0\0\0\06\xfd\x7f\x10\0\0\0\08\x1b\x94\x90\0\0\0\08\xdda\x10\
      \0\0\0\09\xfbv\x90\0\0\0\0:\xbdC\x10\0\0\0\0;\xdbX\x90\0\0\0\0<\xa6_\x90\0\0\0\0=\xbb:\x90\
      \0\0\0\0>\x86A\x90\0\0\0\0?\x9b\x1c\x90\0\0\0\0@f#\x90\0\0\0\0A\x849\x10\0\0\0\0BF\x05\x90\
      \0\0\0\0Cd\x1b\x10\0\0\0\0D%\xe7\x90\0\0\0\0EC\xfd\x10\0\0\0\0F\x05\xc9\x90\0\0\0\0G#\xdf\
      \x10\0\0\0\0G\xee\xe6\x10\0\0\0\0I\x03\xc1\x10\0\0\0\0I\xce\xc8\x10\0\0\0\0J\xe3\xa3\x10\
      \0\0\0\0K\xae\xaa\x10\0\0\0\0L\xcc\xbf\x90\0\0\0\0M\x8e\x8c\x10\0\0\0\0N\xac\xa1\x90\0\0\
      \0\0Onn\x10\0\0\0\0P\x8c\x83\x90\0\0\0\0QW\x8a\x90\0\0\0\0Rle\x90\0\0\0\0S7l\x90\0\0\0\0\
      TLG\x90\0\0\0\0U\x17N\x90\0\0\0\0V,)\x90\0\0\0\0V\xf70\x90\0\0\0\0X\x15F\x10\0\0\0\0X\xd7\
      \x12\x90\0\0\0\0Y\xf5(\x10\0\0\0\0Z\xb6\xf4\x90\0\0\0\0[\xd5\x0a\x10\0\0\0\0\x5c\xa0\x11\
      \x10\0\0\0\0]\xb4\xec\x10\0\0\0\0^\x7f\xf3\x10\0\0\0\0_\x94\xce\x10\0\0\0\0`_\xd5\x10\0\0\
      \0\0a}\xea\x90\0\0\0\0b?\xb7\x10\0\0\0\0c]\xcc\x90\0\0\0\0d\x1f\x99\x10\0\0\0\0e=\xae\x90\
      \0\0\0\0f\x08\xb5\x90\0\0\0\0g\x1d\x90\x90\0\0\0\0g\xe8\x97\x90\0\0\0\0h\xfdr\x90\0\0\0\0\
      i\xc8y\x90\0\0\0\0j\xddT\x90\0\0\0\0k\xa8[\x90\0\0\0\0l\xc6q\x10\0\0\0\0m\x88=\x90\0\0\0\
      \0n\xa6S\x10\0\0\0\0oh\x1f\x90\0\0\0\0p\x865\x10\0\0\0\0qQ<\x10\0\0\0\0rf\x17\x10\0\0\0\0\
      s1\x1e\x10\0\0\0\0tE\xf9\x10\0\0\0\0u\x11\0\x10\0\0\0\0v/\x15\x90\0\0\0\0v\xf0\xe2\x10\0\
      \0\0\0x\x0e\xf7\x90\0\0\0\0x\xd0\xc4\x10\0\0\0\0y\xee\xd9\x90\0\0\0\0z\xb0\xa6\x10\0\0\0\
      \0{\xce\xbb\x90\0\0\0\0|\x99\xc2\x90\0\0\0\0}\xae\x9d\x90\0\0\0\0~y\xa4\x90\0\0\0\0\x7f\x8e\
      \x7f\x90\x04\x01\x02\x01\x02\x01\x02\x01\x02\x01\x02\x01\x02\x01\x02\x01\x02\x01\x02\x01\
      \x02\x01\x02\x01\x02\x01\x02\x01\x02\x01\x02\x01\x02\x01\x02\x01\x02\x01\x02\x01\x02\x01\
      \x02\x01\x02\x01\x02\x01\x02\x01\x03\x01\x03\x01\x03\x01\x03\x01\x03\x01\x02\x01\x02\x01\
      \x03\x01\x02\x01\x02\x01\x02\x01\x02\x01\x02\x01\x02\x01\x02\x01\x02\x01\x02\x01\x02\x01\
      \x02\x01\x02\x01\x02\x01\x02\x01\x02\x01\x02\x01\x02\x01\x02\x01\x02\x01\x02\x01\x02\x01\
      \x05\x07\x01\x02\x01\x02\x01\x02\x01\x02\x01\x02\x01\x02\x01\x02\x01\x02\x01\x02\x06\x07\
      \x06\x07\x06\x07\x06\x07\x06\x07\x06\x07\x06\x07\x06\x07\x06\x07\x06\x07\x06\x07\x06\x07\
      \x06\x07\x06\x07\x06\x07\x06\x07\x06\x07\x06\x07\x06\x07\x06\x07\x06\x07\x06\x07\x06\x07\
      \x06\x07\x06\x07\x06\x07\x06\x07\x06\x07\x06\x07\x06\x07\x06\x07\x06\x07\x06\x07\x06\x07\
      \x06\x07\x06\x07\x06\x07\x06\x07\x06\x07\x06\x07\x06\x07\x06\x07\x06\x07\x06\x07\x06\x07\
      \x06\x07\x06\x07\x06\x07\x06\x07\x06\x07\x06\x07\x06\x07\x06\x07\x06\x07\x06\x07\x06\x07\
      \x06\x07\xff\xff\xff\xb5\0\0\0\0\x0e\x10\x01\x04\0\0\0\0\0\x08\0\0\x1c \x01\x0c\0\0\0\0\0\
      \x08\0\0\x0e\x10\0\x04\0\0\x0e\x10\x01\x04\0\0\0\0\0\x08LMT\0BST\0GMT\0BDST\0\0\x01\x01\x01\
      \0\0\x01\x01\0\0\0\0\0\0\x01\x01\x0aGMT0BST,M3.5.0/1,M10.5.0\x0a";

const NEW_YORK: &[u8] = b"TZif2\0\0\0\0\0\0\0\0\0\0\0\0\0\0\0\0\0\0\x06\0\0\0\x06\0\0\0\0\0\0\0\xec\0\0\0\x06\0\0\0\
      \x14\x80\0\0\0\x9e\xa6\x1ep\x9f\xba\xeb`\xa0\x86\0p\xa1\x9a\xcd`\xa2e\xe2p\xa3\x83\xe9\xe0\
      \xa4j\xaep\xa55\xa7`\xa6S\xca\xf0\xa7\x15\x89`\xa83\xac\xf0\xa8\xfe\xa5\xe0\xaa\x13\x8e\xf0\
      \xaa\xde\x87\xe0\xab\xf3p\xf0\xac\xbei\xe0\xad\xd3R\xf0\xae\x9eK\xe0\xaf\xb34\xf0\xb0~-\xe0\
      \xb1\x9cQp\xb2gJ`\xb3|3p\xb4G,`\xb5\x5c\x15p\xb6'\x0e`\xb7;\xf7p\xb8\x06\xf0`\xb9\x1b\xd9\
      p\xb9\xe6\xd2`\xbb\x04\xf5\xf0\xbb\xc6\xb4`\xbc\xe4\xd7\xf0\xbd\xaf\xd0\xe0\xbe\xc4\xb9\xf0\
      \xbf\x8f\xb2\xe0\xc0\xa4\x9b\xf0\xc1o\x94\xe0\xc2\x84}\xf0\xc3Ov\xe0\xc4d_\xf0\xc5/X\xe0\
      \xc6M|p\xc7\x0f:\xe0\xc8-^p\xc8\xf8W`\xca\x0d@p\xca\xd89`\xcb\x88\xf0p\xd2#\xf4p\xd2`\xfb\
      \xe0\xd3u\xe4\xf0\xd4@\xdd\xe0\xd5U\xc6\xf0\xd6 \xbf\xe0\xd75\xa8\xf0\xd8\0\xa1\xe0\xd9\x15\
      \x8a\xf0\xd9\xe0\x83\xe0\xda\xfe\xa7p\xdb\xc0e\xe0\xdc\xde\x89p\xdd\xa9\x82`\xde\xbekp\xdf\
      \x89d`\xe0\x9eMp\xe1iF`\xe2~/p\xe3I(`\xe4^\x11p\xe5W.\xe0\xe6G-\xf0\xe77\x10\xe0\xe8'\x0f\
      \xf0\xe9\x16\xf2\xe0\xea\x06\xf1\xf0\xea\xf6\xd4\xe0\xeb\xe6\xd3\xf0\xec\xd6\xb6\xe0\xed\
      \xc6\xb5\xf0\xee\xbf\xd3`\xef\xaf\xd2p\xf0\x9f\xb5`\xf1\x8f\xb4p\xf2\x7f\x97`\xf3o\x96p\xf4\
      _y`\xf5Oxp\xf6?[`\xf7/Zp\xf8(w\xe0\xf9\x0f<p\xfa\x08Y\xe0\xfa\xf8X\xf0\xfb\xe8;\xe0\xfc\xd8\
      :\xf0\xfd\xc8\x1d\xe0\xfe\xb8\x1c\xf0\xff\xa7\xff\xe0\0\x97\xfe\xf0\x01\x87\xe1\xe0\x02w\
      \xe0\xf0\x03p\xfe`\x04`\xfdp\x05P\xe0`\x06@\xdfp\x070\xc2`\x07\x8d\x19p\x09\x10\xa4`\x09\
      \xad\x94\xf0\x0a\xf0\x86`\x0b\xe0\x85p\x0c\xd9\xa2\xe0\x0d\xc0gp\x0e\xb9\x84\xe0\x0f\xa9\
      \x83\xf0\x10\x99f\xe0\x11\x89e\xf0\x12yH\xe0\x13iG\xf0\x14Y*\xe0\x15I)\xf0\x169\x0c\xe0\x17\
      )\x0b\xf0\x18\x22)`\x19\x08\xed\xf0\x1a\x02\x0b`\x1a\xf2\x0ap\x1b\xe1\xed`\x1c\xd1\xecp\x1d\
      \xc1\xcf`\x1e\xb1\xcep\x1f\xa1\xb1` v\0\xf0!\x81\x93`\x22U\xe2\xf0#j\xaf\xe0$5\xc4\xf0%J\
      \x91\xe0&\x15\xa6\xf0'*s\xe0'\xfe\xc3p)\x0aU\xe0)\xde\xa5p*\xea7\xe0+\xbe\x87p,\xd3T`-\x9e\
      ip.\xb36`/~Kp0\x93\x18`1gg\xf02r\xfa`3GI\xf04R\xdc`5'+\xf062\xbe`7\x07\x0d\xf08\x1b\xda\xe0\
      8\xe6\xef\xf09\xfb\xbc\xe0:\xc6\xd1\xf0;\xdb\x9e\xe0<\xaf\xeep=\xbb\x80\xe0>\x8f\xd0p?\x9b\
      b\xe0@o\xb2pA\x84\x7f`BO\x94pCda`D/vpEDC`E\xf3\xa8\xf0G-_\xe0G\xd3\x8a\xf0I\x0dA\xe0I\xb3\
      l\xf0J\xed#\xe0K\x9c\x89pL\xd6@`M|kpN\xb6\x22`O\x5cMpP\x96\x04`Q</pRu\xe6`S\x1c\x11pTU\xc8\
      `T\xfb\xf3pV5\xaa`V\xe5\x0f\xf0X\x1e\xc6\xe0X\xc4\xf1\xf0Y\xfe\xa8\xe0Z\xa4\xd3\xf0[\xde\
      \x8a\xe0\x5c\x84\xb5\xf0]\xbel\xe0^d\x97\xf0_\x9eN\xe0`M\xb4pa\x87k`b-\x96pcgM`d\x0dxpeG\
      /`e\xedZpg'\x11`g\xcd<pi\x06\xf3`i\xad\x1epj\xe6\xd5`k\x96:\xf0l\xcf\xf1\xe0mv\x1c\xf0n\xaf\
      \xd3\xe0oU\xfe\xf0p\x8f\xb5\xe0q5\xe0\xf0ro\x97\xe0s\x15\xc2\xf0tOy\xe0t\xfe\xdfpv8\x96`\
      v\xde\xc1px\x18x`x\xbe\xa3py\xf8Z`z\x9e\x85p{\xd8<`|~gp}\xb8\x1e`~^Ip\x7f\x98\0`\x03\x01\
      \x02\x01\x02\x01\x02\x01\x02\x01\x02\x01\x02\x01\x02\x01\x02\x01\x02\x01\x02\x01\x02\x01\
      \x02\x01\x02\x01\x02\x01\x02\x01\x02\x01\x02\x01\x02\x01\x02\x01\x02\x01\x02\x01\x02\x01\
      \x02\x01\x02\x04\x05\x02\x01\x02\x01\x02\x01\x02\x01\x02\x01\x02\x01\x02\x01\x02\x01\x02\
      \x01\x02\x01\x02\x01\x02\x01\x02\x01\x02\x01\x02\x01\x02\x01\x02\x01\x02\x01\x02\x01\x02\
      \x01\x02\x01\x02\x01\x02\x01\x02\x01\x02\x01\x02\x01\x02\x01\x02\x01\x02\x01\x02\x01\x02\
      \x01\x02\x01\x02\x01\x02\x01\x02\x01\x02\x01\x02\x01\x02\x01\x02\x01\x02\x01\x02\x01\x02\
      \x01\x02\x01\x02\x01\x02\x01\x02\x01\x02\x01\x02\x01\x02\x01\x02\x01\x02\x01\x02\x01\x02\
      \x01\x02\x01\x02\x01\x02\x01\x02\x01\x02\x01\x02\x01\x02\x01\x02\x01\x02\x01\x02\x01\x02\
      \x01\x02\x01\x02\x01\x02\x01\x02\x01\x02\x01\x02\x01\x02\x01\x02\x01\x02\x01\x02\x01\x02\
      \x01\x02\x01\x02\x01\x02\x01\x02\x01\x02\x01\x02\x01\x02\x01\x02\x01\x02\x01\x02\x01\x02\
      \x01\x02\x01\x02\x01\x02\x01\x02\x01\x02\x01\x02\x01\x02\xff\xff\xba\x9e\0\0\xff\xff\xc7\
      \xc0\x01\x04\xff\xff\xb9\xb0\0\x08\xff\xff\xb9\xb0\0\x08\xff\xff\xc7\xc0\x01\x0c\xff\xff\
      \xc7\xc0\x01\x10LMT\0EDT\0EST\0EWT\0EPT\0\0\0\0\x01\0\x01\0\0\0\x01\0\x01TZif2\0\0\0\0\0\
      \0\0\0\0\0\0\0\0\0\0\0\0\0\x06\0\0\0\x06\0\0\0\0\0\0\0\xec\0\0\0\x06\0\0\0\x14\xff\xff\xff\
      \xff^\x03\xf0\x90\xff\xff\xff\xff\x9e\xa6\x1ep\xff\xff\xff\xff\x9f\xba\xeb`\xff\xff\xff\xff\
      \xa0\x86\0p\xff\xff\xff\xff\xa1\x9a\xcd`\xff\xff\xff\xff\xa2e\xe2p\xff\xff\xff\xff\xa3\x83\
      \xe9\xe0\xff\xff\xff\xff\xa4j\xaep\xff\xff\xff\xff\xa55\xa7`\xff\xff\xff\xff\xa6S\xca\xf0\
      \xff\xff\xff\xff\xa7\x15\x89`\xff\xff\xff\xff\xa83\xac\xf0\xff\xff\xff\xff\xa8\xfe\xa5\xe0\
      \xff\xff\xff\xff\xaa\x13\x8e\xf0\xff\xff\xff\xff\xaa\xde\x87\xe0\xff\xff\xff\xff\xab\xf3\
      p\xf0\xff\xff\xff\xff\xac\xbei\xe0\xff\xff\xff\xff\xad\xd3R\xf0\xff\xff\xff\xff\xae\x9eK\
      \xe0\xff\xff\xff\xff\xaf\xb34\xf0\xff\xff\xff\xff\xb0~-\xe0\xff\xff\xff\xff\xb1\x9cQp\xff\
      \xff\xff\xff\xb2gJ`\xff\xff\xff\xff\xb3|3p\xff\xff\xff\xff\xb4G,`\xff\xff\xff\xff\xb5\x5c\
      \x15p\xff\xff\xff\xff\xb6'\x0e`\xff\xff\xff\xff\xb7;\xf7p\xff\xff\xff\xff\xb8\x06\xf0`\xff\
      \xff\xff\xff\xb9\x1b\xd9p\xff\xff\xff\xff\xb9\xe6\xd2`\xff\xff\xff\xff\xbb\x04\xf5\xf0\xff\
      \xff\xff\xff\xbb\xc6\xb4`\xff\xff\xff\xff\xbc\xe4\xd7\xf0\xff\xff\xff\xff\xbd\xaf\xd0\xe0\
      \xff\xff\xff\xff\xbe\xc4\xb9\xf0\xff\xff\xff\xff\xbf\x8f\xb2\xe0\xff\xff\xff\xff\xc0\xa4\
      \x9b\xf0\xff\xff\xff\xff\xc1o\x94\xe0\xff\xff\xff\xff\xc2\x84}\xf0\xff\xff\xff\xff\xc3Ov\
      \xe0\xff\xff\xff\xff\xc4d_\xf0\xff\xff\xff\xff\xc5/X\xe0\xff\xff\xff\xff\xc6M|p\xff\xff\xff\
      \xff\xc7\x0f:\xe0\xff\xff\xff\xff\xc8-^p\xff\xff\xff\xff\xc8\xf8W`\xff\xff\xff\xff\xca\x0d\
      @p\xff\xff\xff\xff\xca\xd89`\xff\xff\xff\xff\xcb\x88\xf0p\xff\xff\xff\xff\xd2#\xf4p\xff\xff\
      \xff\xff\xd2`\xfb\xe0\xff\xff\xff\xff\xd3u\xe4\xf0\xff\xff\xff\xff\xd4@\xdd\xe0\xff\xff\xff\
      \xff\xd5U\xc6\xf0\xff\xff\xff\xff\xd6 \xbf\xe0\xff\xff\xff\xff\xd75\xa8\xf0\xff\xff\xff\xff\
      \xd8\0\xa1\xe0\xff\xff\xff\xff\xd9\x15\x8a\xf0\xff\xff\xff\xff\xd9\xe0\x83\xe0\xff\xff\xff\
      \xff\xda\xfe\xa7p\xff\xff\xff\xff\xdb\xc0e\xe0\xff\xff\xff\xff\xdc\xde\x89p\xff\xff\xff\xff\
      \xdd\xa9\x82`\xff\xff\xff\xff\xde\xbekp\xff\xff\xff\xff\xdf\x89d`\xff\xff\xff\xff\xe0\x9e\
      Mp\xff\xff\xff\xff\xe1iF`\xff\xff\xff\xff\xe2~/p\xff\xff\xff\xff\xe3I(`\xff\xff\xff\xff\xe4\
      ^\x11p\xff\xff\xff\xff\xe5W.\xe0\xff\xff\xff\xff\xe6G-\xf0\xff\xff\xff\xff\xe77\x10\xe0\xff\
      \xff\xff\xff\xe8'\x0f\xf0\xff\xff\xff\xff\xe9\x16\xf2\xe0\xff\xff\xff\xff\xea\x06\xf1\xf0\
      \xff\xff\xff\xff\xea\xf6\xd4\xe0\xff\xff\xff\xff\xeb\xe6\xd3\xf0\xff\xff\xff\xff\xec\xd6\
      \xb6\xe0\xff\xff\xff\xff\xed\xc6\xb5\xf0\xff\xff\xff\xff\xee\xbf\xd3`\xff\xff\xff\xff\xef\
      \xaf\xd2p\xff\xff\xff\xff\xf0\x9f\xb5`\xff\xff\xff\xff\xf1\x8f\xb4p\xff\xff\xff\xff\xf2\x7f\
      \x97`\xff\xff\xff\xff\xf3o\x96p\xff\xff\xff\xff\xf4_y`\xff\xff\xff\xff\xf5Oxp\xff\xff\xff\
      \xff\xf6?[`\xff\xff\xff\xff\xf7/Zp\xff\xff\xff\xff\xf8(w\xe0\xff\xff\xff\xff\xf9\x0f<p\xff\
      \xff\xff\xff\xfa\x08Y\xe0\xff\xff\xff\xff\xfa\xf8X\xf0\xff\xff\xff\xff\xfb\xe8;\xe0\xff\xff\
      \xff\xff\xfc\xd8:\xf0\xff\xff\xff\xff\xfd\xc8\x1d\xe0\xff\xff\xff\xff\xfe\xb8\x1c\xf0\xff\
      \xff\xff\xff\xff\xa7\xff\xe0\0\0\0\0\0\x97\xfe\xf0\0\0\0\0\x01\x87\xe1\xe0\0\0\0\0\x02w\xe0\
      \xf0\0\0\0\0\x03p\xfe`\0\0\0\0\x04`\xfdp\0\0\0\0\x05P\xe0`\0\0\0\0\x06@\xdfp\0\0\0\0\x07\
      0\xc2`\0\0\0\0\x07\x8d\x19p\0\0\0\0\x09\x10\xa4`\0\0\0\0\x09\xad\x94\xf0\0\0\0\0\x0a\xf0\
      \x86`\0\0\0\0\x0b\xe0\x85p\0\0\0\0\x0c\xd9\xa2\xe0\0\0\0\0\x0d\xc0gp\0\0\0\0\x0e\xb9\x84\
      \xe0\0\0\0\0\x0f\xa9\x83\xf0\0\0\0\0\x10\x99f\xe0\0\0\0\0\x11\x89e\xf0\0\0\0\0\x12yH\xe0\
      \0\0\0\0\x13iG\xf0\0\0\0\0\x14Y*\xe0\0\0\0\0\x15I)\xf0\0\0\0\0\x169\x0c\xe0\0\0\0\0\x17)\
      \x0b\xf0\0\0\0\0\x18\x22)`\0\0\0\0\x19\x08\xed\xf0\0\0\0\0\x1a\x02\x0b`\0\0\0\0\x1a\xf2\x0a\
      p\0\0\0\0\x1b\xe1\xed`\0\0\0\0\x1c\xd1\xecp\0\0\0\0\x1d\xc1\xcf`\0\0\0\0\x1e\xb1\xcep\0\0\
      \0\0\x1f\xa1\xb1`\0\0\0\0 v\0\xf0\0\0\0\0!\x81\x93`\0\0\0\0\x22U\xe2\xf0\0\0\0\0#j\xaf\xe0\
      \0\0\0\0$5\xc4\xf0\0\0\0\0%J\x91\xe0\0\0\0\0&\x15\xa6\xf0\0\0\0\0'*s\xe0\0\0\0\0'\xfe\xc3\
      p\0\0\0\0)\x0aU\xe0\0\0\0\0)\xde\xa5p\0\0\0\0*\xea7\xe0\0\0\0\0+\xbe\x87p\0\0\0\0,\xd3T`\
      \0\0\0\0-\x9eip\0\0\0\0.\xb36`\0\0\0\0/~Kp\0\0\0\00\x93\x18`\0\0\0\01gg\xf0\0\0\0\02r\xfa\
      `\0\0\0\03GI\xf0\0\0\0\04R\xdc`\0\0\0\05'+\xf0\0\0\0\062\xbe`\0\0\0\07\x07\x0d\xf0\0\0\0\
      \08\x1b\xda\xe0\0\0\0\08\xe6\xef\xf0\0\0\0\09\xfb\xbc\xe0\0\0\0\0:\xc6\xd1\xf0\0\0\0\0;\xdb\
      \x9e\xe0\0\0\0\0<\xaf\xeep\0\0\0\0=\xbb\x80\xe0\0\0\0\0>\x8f\xd0p\0\0\0\0?\x9bb\xe0\0\0\0\
      \0@o\xb2p\0\0\0\0A\x84\x7f`\0\0\0\0BO\x94p\0\0\0\0Cda`\0\0\0\0D/vp\0\0\0\0EDC`\0\0\0\0E\xf3\
      \xa8\xf0\0\0\0\0G-_\xe0\0\0\0\0G\xd3\x8a\xf0\0\0\0\0I\x0dA\xe0\0\0\0\0I\xb3l\xf0\0\0\0\0\
      J\xed#\xe0\0\0\0\0K\x9c\x89p\0\0\0\0L\xd6@`\0\0\0\0M|kp\0\0\0\0N\xb6\x22`\0\0\0\0O\x5cMp\
      \0\0\0\0P\x96\x04`\0\0\0\0Q</p\0\0\0\0Ru\xe6`\0\0\0\0S\x1c\x11p\0\0\0\0TU\xc8`\0\0\0\0T\xfb\
      \xf3p\0\0\0\0V5\xaa`\0\0\0\0V\xe5\x0f\xf0\0\0\0\0X\x1e\xc6\xe0\0\0\0\0X\xc4\xf1\xf0\0\0\0\
      \0Y\xfe\xa8\xe0\0\0\0\0Z\xa4\xd3\xf0\0\0\0\0[\xde\x8a\xe0\0\0\0\0\x5c\x84\xb5\xf0\0\0\0\0\
      ]\xbel\xe0\0\0\0\0^d\x97\xf0\0\0\0\0_\x9eN\xe0\0\0\0\0`M\xb4p\0\0\0\0a\x87k`\0\0\0\0b-\x96\
      p\0\0\0\0cgM`\0\0\0\0d\x0dxp\0\0\0\0eG/`\0\0\0\0e\xedZp\0\0\0\0g'\x11`\0\0\0\0g\xcd<p\0\0\
      \0\0i\x06\xf3`\0\0\0\0i\xad\x1ep\0\0\0\0j\xe6\xd5`\0\0\0\0k\x96:\xf0\0\0\0\0l\xcf\xf1\xe0\
      \0\0\0\0mv\x1c\xf0\0\0\0\0n\xaf\xd3\xe0\0\0\0\0oU\xfe\xf0\0\0\0\0p\x8f\xb5\xe0\0\0\0\0q5\
      \xe0\xf0\0\0\0\0ro\x97\xe0\0\0\0\0s\x15\xc2\xf0\0\0\0\0tOy\xe0\0\0\0\0t\xfe\xdfp\0\0\0\0\
      v8\x96`\0\0\0\0v\xde\xc1p\0\0\0\0x\x18x`\0\0\0\0x\xbe\xa3p\0\0\0\0y\xf8Z`\0\0\0\0z\x9e\x85\
      p\0\0\0\0{\xd8<`\0\0\0\0|~gp\0\0\0\0}\xb8\x1e`\0\0\0\0~^Ip\0\0\0\0\x7f\x98\0`\x03\x01\x02\
      \x01\x02\x01\x02\x01\x02\x01\x02\x01\x02\x01\x02\x01\x02\x01\x02\x01\x02\x01\x02\x01\x02\
      \x01\x02\x01\x02\x01\x02\x01\x02\x01\x02\x01\x02\x01\x02\x01\x02\x01\x02\x01\x02\x01\x02\
      \x01\x02\x04\x05\x02\x01\x02\x01\x02\x01\x02\x01\x02\x01\x02\x01\x02\x01\x02\x01\x02\x01\
      \x02\x01\x02\x01\x02\x01\x02\x01\x02\x01\x02\x01\x02\x01\x02\x01\x02\x01\x02\x01\x02\x01\
      \x02\x01\x02\x01\x02\x01\x02\x01\x02\x01\x02\x01\x02\x01\x02\x01\x02\x01\x02\x01\x02\x01\
      \x02\x01\x02\x01\x02\x01\x02\x01\x02\x01\x02\x01\x02\x01\x02\x01\x02\x01\x02\x01\x02\x01\
      \x02\x01\x02\x01\x02\x01\x02\x01\x02\x01\x02\x01\x02\x01\x02\x01\x02\x01\x02\x01\x02\x01\
      \x02\x01\x02\x01\x02\x01\x02\x01\x02\x01\x02\x01\x02\x01\x02\x01\x02\x01\x02\x01\x02\x01\
      \x02\x01\x02\x01\x02\x01\x02\x01\x02\x01\x02\x01\x02\x01\x02\x01\x02\x01\x02\x01\x02\x01\
      \x02\x01\x02\x01\x02\x01\x02\x01\x02\x01\x02\x01\x02\x01\x02\x01\x02\x01\x02\x01\x02\x01\
      \x02\x01\x02\x01\x02\x01\x02\x01\x02\x01\x02\x01\x02\xff\xff\xba\x9e\0\0\xff\xff\xc7\xc0\
      \x01\x04\xff\xff\xb9\xb0\0\x08\xff\xff\xb9\xb0\0\x08\xff\xff\xc7\xc0\x01\x0c\xff\xff\xc7\
      \xc0\x01\x10LMT\0EDT\0EST\0EWT\0EPT\0\0\0\0\x01\0\x01\0\0\0\x01\0\x01\x0aEST5EDT,M3.2.0,\
      M11.1.0\x0a";

const KOLKATA: &[u8] = b"TZif2\0\0\0\0\0\0\0\0\0\0\0\0\0\0\0\0\0\0\0\0\0\0\0\0\0\0\0\0\0\0\x06\0\0\0\x04\0\0\0\x12\
      \x80\0\0\0\x87\x9d\xbc\xba\xca\xdb\x8c(\xcc\x05q\x18\xcc\x952\xa8\xd2t\x12\x98\x01\x02\x03\
      \x02\x03\x02\0\0R\xd8\0\0\0\0KF\0\x04\0\0MX\0\x08\0\0[h\x01\x0cLMT\0MMT\0IST\0+0630\0TZi\
      f2\0\0\0\0\0\0\0\0\0\0\0\0\0\0\0\0\0\0\0\0\0\0\0\0\0\0\0\0\0\0\x07\0\0\0\x05\0\0\0\x16\xff\
      \xff\xff\xff&\xba\x18(\xff\xff\xff\xffC\xe7\xeb0\xff\xff\xff\xff\x87\x9d\xbc\xba\xff\xff\
      \xff\xff\xca\xdb\x8c(\xff\xff\xff\xff\xcc\x05q\x18\xff\xff\xff\xff\xcc\x952\xa8\xff\xff\xff\
      \xff\xd2t\x12\x98\x01\x02\x03\x04\x03\x04\x03\0\0R\xd8\0\0\0\0R\xd0\0\x04\0\0KF\0\x08\0\0\
      MX\0\x0c\0\0[h\x01\x10LMT\0HMT\0MMT\0IST\0+0630\0\x0aIST-5:30\x0a";

const LORD_HOWE: &[u8] = b"TZif2\0\0\0\0\0\0\0\0\0\0\0\0\0\0\0\0\0\0\0\0\0\0\0\0\0\0\0\0\0\0t\0\0\0\x05\0\0\0\x19\x80\
      \0\0\0\x14\xfef\xe0\x168@\xf8\x16\xe7\x8ah\x18!]x\x18\xc7lh\x1a\x01?x\x1a\xa7Nh\x1b\xe1!\
      x\x1c\x870h\x1d\xc1\x03x\x1ey\x8ep\x1f\x97\xaa\xf8 Ypp!\x80\xc7x\x22B\x8c\xf0#i\xe3\xf8$\
      \x22n\xf0%I\xc5\xf8%\xef\xdb\xf0')\xa7\xf8'\xcf\xbd\xf0)\x09\x89\xf8)\xaf\x9f\xf0*\xe9k\xf8\
      +\x98\xbcp,\xd2\x88x-x\x9ep.\xb2jx/X\x80p0\x92Lx1]Lp2r.x3=.p4R\x10x5\x1d\x10p61\xf2x6\xfc\
      \xf2p8\x1b\x0e\xf88\xdc\xd4p9\xa7\xe2x:\xbc\xb6p;\xda\xd2\xf8<\xa5\xd2\xf0=\xba\xb4\xf8>\
      \x85\xb4\xf0?\x9a\x96\xf8@e\x96\xf0A\x83\xb3xBEx\xf0Cc\x95xD.\x95pECwxF\x05<\xf0G#YxG\xf7\
      \x93\xf0H\xe7\x8b\xf8I\xd7u\xf0J\xc7m\xf8K\xb7W\xf0L\xa7O\xf8M\x979\xf0N\x871\xf8Ow\x1b\xf0\
      PpNxQ`8pRP0xS@\x1apT0\x12xU\x1f\xfcpV\x0f\xf4xV\xff\xdepW\xef\xd6xX\xdf\xc0pY\xcf\xb8xZ\xbf\
      \xa2p[\xb8\xd4\xf8\x5c\xa8\xbe\xf0]\x98\xb6\xf8^\x88\xa0\xf0_x\x98\xf8`h\x82\xf0aXz\xf8b\
      Hd\xf0c8\x5c\xf8d(F\xf0e\x18>\xf8f\x11cpg\x01[xg\xf1Eph\xe1=xi\xd1'pj\xc1\x1fxk\xb1\x09p\
      l\xa1\x01xm\x90\xebpn\x80\xe3xop\xcdppi\xff\xf8qY\xe9\xf0rI\xe1\xf8s9\xcb\xf0t)\xc3\xf8u\
      \x19\xad\xf0v\x09\xa5\xf8v\xf9\x8f\xf0w\xe9\x87\xf8x\xd9q\xf0y\xc9i\xf8z\xb9S\xf0{\xb2\x86\
      x|\xa2pp}\x92hx~\x82Rp\x7frJx\x7f\xff\xff\xff\x01\x03\x02\x03\x02\x03\x02\x03\x02\x03\x04\
      \x03\x04\x03\x04\x03\x04\x03\x04\x03\x04\x03\x04\x03\x04\x03\x04\x03\x04\x03\x04\x03\x04\
      \x03\x04\x03\x04\x03\x04\x03\x04\x03\x04\x03\x04\x03\x04\x03\x04\x03\x04\x03\x04\x03\x04\
      \x03\x04\x03\x04\x03\x04\x03\x04\x03\x04\x03\x04\x03\x04\x03\x04\x03\x04\x03\x04\x03\x04\
      \x03\x04\x03\x04\x03\x04\x03\x04\x03\x04\x03\x04\x03\x04\x03\x04\x03\x04\x03\x04\x03\x04\
      \x03\x04\x03\x04\x03\x04\x03\x04\x03\x04\x03\x04\x03\x04\x03\x04\x04\0\0\x95$\0\0\0\0\x8c\
      \xa0\0\x04\0\0\xa1\xb8\x01\x09\0\0\x93\xa8\0\x0f\0\0\x9a\xb0\x01\x15LMT\0AEST\0+1130\0+1\
      030\0+11\0TZif2\0\0\0\0\0\0\0\0\0\0\0\0\0\0\0\0\0\0\0\0\0\0\0\0\0\0\0\0\0\0t\0\0\0\x05\0\
      \0\0\x19\xff\xff\xff\xffs\x16w\xdc\0\0\0\0\x14\xfef\xe0\0\0\0\0\x168@\xf8\0\0\0\0\x16\xe7\
      \x8ah\0\0\0\0\x18!]x\0\0\0\0\x18\xc7lh\0\0\0\0\x1a\x01?x\0\0\0\0\x1a\xa7Nh\0\0\0\0\x1b\xe1\
      !x\0\0\0\0\x1c\x870h\0\0\0\0\x1d\xc1\x03x\0\0\0\0\x1ey\x8ep\0\0\0\0\x1f\x97\xaa\xf8\0\0\0\
      \0 Ypp\0\0\0\0!\x80\xc7x\0\0\0\0\x22B\x8c\xf0\0\0\0\0#i\xe3\xf8\0\0\0\0$\x22n\xf0\0\0\0\0\
      %I\xc5\xf8\0\0\0\0%\xef\xdb\xf0\0\0\0\0')\xa7\xf8\0\0\0\0'\xcf\xbd\xf0\0\0\0\0)\x09\x89\xf8\
      \0\0\0\0)\xaf\x9f\xf0\0\0\0\0*\xe9k\xf8\0\0\0\0+\x98\xbcp\0\0\0\0,\xd2\x88x\0\0\0\0-x\x9e\
      p\0\0\0\0.\xb2jx\0\0\0\0/X\x80p\0\0\0\00\x92Lx\0\0\0\01]Lp\0\0\0\02r.x\0\0\0\03=.p\0\0\0\
      \04R\x10x\0\0\0\05\x1d\x10p\0\0\0\061\xf2x\0\0\0\06\xfc\xf2p\0\0\0\08\x1b\x0e\xf8\0\0\0\0\
      8\xdc\xd4p\0\0\0\09\xa7\xe2x\0\0\0\0:\xbc\xb6p\0\0\0\0;\xda\xd2\xf8\0\0\0\0<\xa5\xd2\xf0\
      \0\0\0\0=\xba\xb4\xf8\0\0\0\0>\x85\xb4\xf0\0\0\0\0?\x9a\x96\xf8\0\0\0\0@e\x96\xf0\0\0\0\0\
      A\x83\xb3x\0\0\0\0BEx\xf0\0\0\0\0Cc\x95x\0\0\0\0D.\x95p\0\0\0\0ECwx\0\0\0\0F\x05<\xf0\0\0\
      \0\0G#Yx\0\0\0\0G\xf7\x93\xf0\0\0\0\0H\xe7\x8b\xf8\0\0\0\0I\xd7u\xf0\0\0\0\0J\xc7m\xf8\0\
      \0\0\0K\xb7W\xf0\0\0\0\0L\xa7O\xf8\0\0\0\0M\x979\xf0\0\0\0\0N\x871\xf8\0\0\0\0Ow\x1b\xf0\
      \0\0\0\0PpNx\0\0\0\0Q`8p\0\0\0\0RP0x\0\0\0\0S@\x1ap\0\0\0\0T0\x12x\0\0\0\0U\x1f\xfcp\0\0\
      \0\0V\x0f\xf4x\0\0\0\0V\xff\xdep\0\0\0\0W\xef\xd6x\0\0\0\0X\xdf\xc0p\0\0\0\0Y\xcf\xb8x\0\
      \0\0\0Z\xbf\xa2p\0\0\0\0[\xb8\xd4\xf8\0\0\0\0\x5c\xa8\xbe\xf0\0\0\0\0]\x98\xb6\xf8\0\0\0\
      \0^\x88\xa0\xf0\0\0\0\0_x\x98\xf8\0\0\0\0`h\x82\xf0\0\0\0\0aXz\xf8\0\0\0\0bHd\xf0\0\0\0\0\
      c8\x5c\xf8\0\0\0\0d(F\xf0\0\0\0\0e\x18>\xf8\0\0\0\0f\x11cp\0\0\0\0g\x01[x\0\0\0\0g\xf1Ep\
      \0\0\0\0h\xe1=x\0\0\0\0i\xd1'p\0\0\0\0j\xc1\x1fx\0\0\0\0k\xb1\x09p\0\0\0\0l\xa1\x01x\0\0\
      \0\0m\x90\xebp\0\0\0\0n\x80\xe3x\0\0\0\0op\xcdp\0\0\0\0pi\xff\xf8\0\0\0\0qY\xe9\xf0\0\0\0\
      \0rI\xe1\xf8\0\0\0\0s9\xcb\xf0\0\0\0\0t)\xc3\xf8\0\0\0\0u\x19\xad\xf0\0\0\0\0v\x09\xa5\xf8\
      \0\0\0\0v\xf9\x8f\xf0\0\0\0\0w\xe9\x87\xf8\0\0\0\0x\xd9q\xf0\0\0\0\0y\xc9i\xf8\0\0\0\0z\xb9\
      S\xf0\0\0\0\0{\xb2\x86x\0\0\0\0|\xa2pp\0\0\0\0}\x92hx\0\0\0\0~\x82Rp\0\0\0\0\x7frJx\0\0\0\
      \0\x7f\xff\xff\xff\x01\x03\x02\x03\x02\x03\x02\x03\x02\x03\x04\x03\x04\x03\x04\x03\x04\x03\
      \x04\x03\x04\x03\x04\x03\x04\x03\x04\x03\x04\x03\x04\x03\x04\x03\x04\x03\x04\x03\x04\x03\
      \x04\x03\x04\x03\x04\x03\x04\x03\x04\x03\x04\x03\x04\x03\x04\x03\x04\x03\x04\x03\x04\x03\
      \x04\x03\x04\x03\x04\x03\x04\x03\x04\x03\x04\x03\x04\x03\x04\x03\x04\x03\x04\x03\x04\x03\
      \x04\x03\x04\x03\x04\x03\x04\x03\x04\x03\x04\x03\x04\x03\x04\x03\x04\x03\x04\x03\x04\x03\
      \x04\x03\x04\x03\x04\x03\x04\x03\x04\x04\0\0\x95$\0\0\0\0\x8c\xa0\0\x04\0\0\xa1\xb8\x01\x09\
      \0\0\x93\xa8\0\x0f\0\0\x9a\xb0\x01\x15LMT\0AEST\0+1130\0+1030\0+11\0\x0a<+1030>-10:30<+1\
      1>-11,M10.1.0,M4.1.0\x0a";

const GMT_MINUS_5: &[u8] = b"TZif2\0\0\0\0\0\0\0\0\0\0\0\0\0\0\0\0\0\0\0\0\0\0\0\0\0\0\0\0\0\0\0\0\0\0\x01\0\0\0\x04\xff\
      \xff\xb9\xb0\0\0-05\0TZif2\0\0\0\0\0\0\0\0\0\0\0\0\0\0\0\0\0\0\0\0\0\0\0\0\0\0\0\0\0\0\0\
      \0\0\0\x01\0\0\0\x04\xff\xff\xb9\xb0\0\0-05\0\x0a<-05>5\x0a";

fn zone(name: &str) -> TimeZone {
    let bytes = match name {
        "Europe/London" => LONDON,
        "America/New_York" => NEW_YORK,
        "Asia/Kolkata" => KOLKATA,
        "Australia/Lord_Howe" => LORD_HOWE,
        "Etc/GMT+5" => GMT_MINUS_5,
        other => panic!("no fixture for {other}"),
    };
    TimeZone::parse(bytes).expect("fixture parses")
}

/// Expected offsets come from the `zoneinfo` module of Python's library.
#[test]
fn offset_at_matches_the_zone_database() {
    let cases = [
        ("Europe/London", 1_768_478_400, 0),            // 2026-01-15 GMT
        ("Europe/London", 1_784_116_800, 3_600),        // 2026-07-15 BST
        ("America/New_York", 1_768_478_400, -18_000),   // EST
        ("America/New_York", 1_784_116_800, -14_400),   // EDT
        ("Asia/Kolkata", 1_784_116_800, 19_800),        // +05:30, no DST
        ("Australia/Lord_Howe", 1_768_478_400, 39_600), // +11 in their summer
        ("Australia/Lord_Howe", 1_784_116_800, 37_800), // +10:30, a 30-minute step
        ("Etc/GMT+5", 1_784_116_800, -18_000),          // no transitions at all
        ("Europe/London", 486_475_200, 3_600),          // 1985, well before the tables end
        ("America/New_York", 946_681_200, -18_000),     // 1999
    ];
    for (name, instant, expected) in cases {
        assert_eq!(
            zone(name).offset_at(instant),
            expected,
            "{name} at {instant}"
        );
    }
}

/// The reverse direction, on readings that name exactly one instant.
#[test]
fn offset_for_local_matches_the_zone_database() {
    let cases = [
        ("Europe/London", 1_768_478_400, 0),            // 12:00 GMT
        ("Europe/London", 1_784_127_600, 3_600),        // 15:00 BST
        ("America/New_York", 1_784_109_600, -14_400),   // 10:00 EDT
        ("Asia/Kolkata", 1_784_143_800, 19_800),        // 19:30 IST
        ("Australia/Lord_Howe", 1_784_154_600, 37_800), // 22:30 +10:30
        ("Etc/GMT+5", 1_784_098_800, -18_000),          // 07:00 -05
        ("Europe/London", 2_131_272_000, 3_600),        // 2037, the last year the tables cover
    ];
    for (name, reading, expected) in cases {
        assert_eq!(
            zone(name).offset_for_local(reading),
            expected,
            "{name} reading {reading}"
        );
    }
}

/// Both directions have to agree, or a timestamp written and read back on
/// one machine would drift.
#[test]
fn the_two_directions_round_trip() {
    for name in [
        "Europe/London",
        "America/New_York",
        "Asia/Kolkata",
        "Australia/Lord_Howe",
        "Etc/GMT+5",
    ] {
        let zone = zone(name);
        // Every six hours across 2026, skipping nothing.
        let mut instant = 1_767_225_600; // 2026-01-01
        while instant < 1_798_761_600 {
            let reading = instant + i64::from(zone.offset_at(instant));
            let back = reading - i64::from(zone.offset_for_local(reading));
            // The instant itself need not come back. In the hour a zone
            // repeats, two instants share one reading and either is a
            // correct answer. What must hold is that the answer still
            // reads the same on the clock, which is the whole point of
            // storing a reading.
            let back_reading = back + i64::from(zone.offset_at(back));
            assert_eq!(back_reading, reading, "{name} at {instant}");
            instant += 21_600;
        }
    }
}

/// The hour a zone repeats names two instants and the hour it skips names
/// none. Both resolve to standard time here, deterministically.
///
/// The reference readers are not consistent in these hours, so there is
/// nothing to match: RAR 7.12 resolves London's repeated hour to standard
/// time and New York's to daylight saving. This pins our own choice.
#[test]
fn ambiguous_and_skipped_readings_resolve_to_standard_time() {
    // 2026-10-25 01:30 in London happens twice, as BST then as GMT.
    assert_eq!(zone("Europe/London").offset_for_local(1_792_891_800), 0);
    // 2026-03-29 01:30 in London never happens; the clock jumps 01:00 to 02:00.
    assert_eq!(zone("Europe/London").offset_for_local(1_774_747_800), 0);
    // 2026-11-01 01:30 in New York happens twice, as EDT then as EST.
    assert_eq!(
        zone("America/New_York").offset_for_local(1_793_496_600),
        -18_000
    );
}

#[test]
fn a_zone_with_no_transitions_still_has_its_offset() {
    let zone = zone("Etc/GMT+5");
    assert!(zone.is_fixed());
    assert_eq!(zone.offset_at(0), -18_000);
    assert_eq!(zone.offset_at(i64::MAX / 2), -18_000);
}

#[test]
fn utc_is_the_fallback_and_has_no_offset() {
    let zone = TimeZone::utc();
    assert_eq!(zone.offset_at(1_784_116_800), 0);
    assert_eq!(zone.offset_for_local(1_784_116_800), 0);
    assert_eq!(
        zone.types().to_vec(),
        vec![LocalType {
            offset: 0,
            is_dst: false
        }]
    );
}

/// A damaged or foreign file must not panic or be believed.
#[test]
fn rejects_files_that_are_not_a_usable_zone() {
    assert!(TimeZone::parse(b"").is_none());
    assert!(TimeZone::parse(b"not a tzif file at all").is_none());
    assert!(TimeZone::parse(&LONDON[..20]).is_none(), "truncated header");
    assert!(TimeZone::parse(&LONDON[..200]).is_none(), "truncated body");

    // A type index pointing past the type table would index out of bounds.
    let mut corrupt = LONDON.to_vec();
    let indices_start = corrupt.len() - 40;
    corrupt[indices_start] = 0xff;
    // Either it is rejected or the byte landed somewhere harmless; what
    // matters is that parsing never panics.
    let _ = TimeZone::parse(&corrupt);
}

#[test]
fn stored_calendar_fields_keep_wall_clock_separate_from_utc() {
    assert_eq!(StoredTimestamp::DosLocal(0).calendar_fields(), None);
    assert_eq!(
        StoredTimestamp::UnixSeconds(0).calendar_fields(),
        Some((1970, 1, 1, 0, 0, 0))
    );
    assert_eq!(
        StoredTimestamp::DosLocal(0x5022_1882).calendar_fields(),
        Some((2020, 1, 2, 3, 4, 4))
    );
    assert_eq!(
        StoredTimestamp::UnixSeconds(1_582_934_400).calendar_fields(),
        Some((2020, 2, 29, 0, 0, 0))
    );
    // The display accessor retains historically exposed raw DOS fields,
    // rather than silently normalizing malformed dates into another date.
    assert_eq!(
        StoredTimestamp::DosLocal(u32::MAX).calendar_fields(),
        Some((2107, 15, 31, 31, 63, 62))
    );
}

#[test]
fn dates_count_days_and_back() {
    assert_eq!(civil_from_days(0), (1970, 1, 1));
    assert_eq!(civil_from_days(11_016), (2000, 2, 29));
    assert_eq!(days_from_civil(2000, 2, 29), 11_016);
    assert_eq!(days_from_civil(2100, 3, 1) - days_from_civil(2100, 2, 28), 1);
    for days in (0..80_000).step_by(97) {
        let (year, month, day) = civil_from_days(days);
        assert_eq!(days_from_civil(year as u32, month, day), days);
    }
}

#[test]
fn a_clock_reading_survives_dos_storage() {
    let london = zone("Europe/London");
    // 2026-07-15 12:00:00 UTC reads 13:00 in London.
    let raw = unix_to_dos_time(1_784_116_800, &london).unwrap();
    assert_eq!(
        StoredTimestamp::from_family(ArchiveFamily::Rar13, raw).calendar_fields(),
        Some((2026, 7, 15, 13, 0, 0))
    );
    assert_eq!(dos_time_to_unix(raw, &london), Some(1_784_116_800));
    // Odd seconds are lost, and come back as a refinement.
    let odd = unix_to_dos_time(1_784_116_801, &london).unwrap();
    assert_eq!(odd, raw);
    let refined = extracted_system_time(
        ArchiveFamily::Rar15To40,
        Some(odd),
        Some(TimeRefinement {
            add_second: true,
            nanoseconds: 1_500_000_000,
        }),
        &london,
    );
    assert_eq!(
        refined,
        Some(UnixTime {
            seconds: 1_784_116_802,
            nanoseconds: 500_000_000,
        })
    );
}

#[test]
fn readings_outside_the_dos_range_are_not_stored() {
    let utc = TimeZone::utc();
    assert_eq!(unix_to_dos_time(315_532_799, &utc), None);
    assert_eq!(unix_to_dos_time(315_532_800, &utc), Some(0x0021_0000));
    assert_eq!(unix_to_dos_time(4_354_819_198, &utc), Some(0xff9f_bf7d));
    assert_eq!(unix_to_dos_time(4_354_819_200, &utc), None);
    assert_eq!(source_dos_mtime(Some(315_532_799), &utc), 0);
    assert_eq!(source_dos_mtime(Some(315_532_800), &utc), 0x0021_0000);
    assert_eq!(source_dos_mtime(None, &utc), 0);
    assert_eq!(source_unix_mtime(u64::from(u32::MAX)), Some(u32::MAX));
    assert_eq!(source_unix_mtime(1 << 32), None);
}

#[test]
fn the_epoch_is_present_and_a_dos_zero_is_not() {
    let utc = TimeZone::utc();
    let epoch = UnixTime {
        seconds: 0,
        nanoseconds: 0,
    };
    assert_eq!(
        extracted_system_time(ArchiveFamily::Rar50Plus, Some(0), None, &utc),
        Some(epoch)
    );
    assert_eq!(
        extracted_system_time(ArchiveFamily::Rar13, Some(0), None, &utc),
        None
    );
    assert_eq!(
        extracted_system_time(ArchiveFamily::Rar50Plus, None, None, &utc),
        None
    );
}

#[test]
fn filetimes_are_counted_and_shown() {
    assert_eq!(current_filetime(0, 0), 116_444_736_000_000_000);
    assert_eq!(current_filetime(1, 250), 116_444_736_010_000_002);
    assert_eq!(current_filetime(u64::MAX, 999_999_999), u64::MAX);
    assert_eq!(
        format_filetime_utc(current_filetime(1_582_934_400, 0)),
        "2020-02-29T00:00:00Z"
    );
    assert_eq!(format_filetime_utc(1), "0x0000000000000001");
    assert_eq!(unix_datetime(u32::MAX), (2106, 2, 7, 6, 28, 15));
}

#[test]
fn a_zone_setting_names_a_file() {
    assert!(matches!(zone_file(None), ZoneFile::System));
    assert!(matches!(
        zone_file(Some(&b"Europe/London"[..])),
        ZoneFile::Named(name) if name == b"Europe/London"
    ));
    assert!(matches!(
        zone_file(Some(&b":Europe/London"[..])),
        ZoneFile::Named(name) if name == b"Europe/London"
    ));
    assert!(matches!(
        zone_file(Some(&b"/etc/zone"[..])),
        ZoneFile::Absolute(path) if path == b"/etc/zone"
    ));
    assert!(matches!(
        zone_file(Some(&b"../../etc/passwd"[..])),
        ZoneFile::Nowhere
    ));
}
