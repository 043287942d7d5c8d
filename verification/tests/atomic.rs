//! The file written before the target is replaced.

use cfggraft::atomic::temporary_name;

#[test]
fn the_temporary_file_is_hidden_beside_the_target() {
    assert_eq!(temporary_name("c.txt"), ".c.txt.cfggraft-tmp");
    assert_eq!(temporary_name(""), "..cfggraft-tmp");
}
