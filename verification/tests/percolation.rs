use algokit::percolation::Percolation;

#[test]
fn new_grid_is_closed() {
    let perc = Percolation::new(3);
    for i in 0..3 {
        for j in 0..3 {
            assert!(!perc.is_open(i, j));
            assert!(!perc.is_full(i, j));
        }
    }
    assert!(!perc.percolates());
}

#[test]
fn indices_off_the_grid() {
    let mut perc = Percolation::new(2);
    assert!(perc.is_valid_index(1, 1));
    assert!(!perc.is_valid_index(2, 0));
    assert!(!perc.is_valid_index(0, 2));
    assert!(!perc.is_open(5, 5));
    perc.open(2, 0);
    assert!(!perc.try_open(0, 7));
    assert!(!perc.is_full(2, 2));
    for i in 0..2 {
        for j in 0..2 {
            assert!(!perc.is_open(i, j));
        }
    }
}

#[test]
fn grid_of_no_sites_never_percolates() {
    let perc = Percolation::new(0);
    assert!(!perc.percolates());
    assert!(!perc.is_valid_index(0, 0));
}

#[test]
fn single_site_percolates_when_open() {
    let mut perc = Percolation::new(1);
    assert!(!perc.percolates());
    perc.open(0, 0);
    assert!(perc.is_open(0, 0));
    assert!(perc.is_full(0, 0));
    assert!(perc.percolates());
}

#[test]
fn column_of_open_sites_percolates() {
    let mut perc = Percolation::new(3);
    perc.open(0, 1);
    assert!(perc.is_full(0, 1));
    assert!(!perc.percolates());
    perc.open(2, 1);
    assert!(!perc.is_full(2, 1));
    assert!(!perc.percolates());
    perc.open(1, 1);
    assert!(perc.is_full(1, 1));
    assert!(perc.is_full(2, 1));
    assert!(perc.percolates());
}

#[test]
fn diagonal_does_not_connect() {
    let mut perc = Percolation::new(3);
    perc.open(0, 0);
    perc.open(1, 1);
    perc.open(2, 2);
    assert!(perc.is_full(0, 0));
    assert!(!perc.is_full(1, 1));
    assert!(!perc.percolates());
    perc.open(0, 1);
    perc.open(1, 2);
    assert!(perc.is_full(1, 1));
    assert!(perc.percolates());
}

#[test]
fn row_ends_do_not_wrap_around() {
    let mut perc = Percolation::new(3);
    perc.open(0, 2);
    perc.open(1, 0);
    assert!(!perc.is_full(1, 0));
    perc.open(2, 0);
    assert!(!perc.percolates());
}

#[test]
fn open_site_at_the_bottom_is_full_once_the_grid_percolates() {
    let mut perc = Percolation::new(3);
    perc.open(2, 2);
    assert!(!perc.is_full(2, 2));
    for i in 0..3 {
        perc.open(i, 0);
    }
    assert!(perc.percolates());
    // Connected to the top through the bottom of the grid.
    assert!(perc.is_full(2, 2));
    assert!(!perc.is_full(1, 2));
}

#[test]
fn try_open_tells_whether_it_opened() {
    let mut perc = Percolation::new(2);
    assert!(perc.try_open(1, 0));
    assert!(perc.is_open(1, 0));
    assert!(!perc.try_open(1, 0));
    assert!(perc.is_open(1, 0));
    perc.open(1, 0);
    assert!(perc.is_open(1, 0));
    assert!(!perc.percolates());
    assert!(perc.try_open(0, 0));
    assert!(perc.percolates());
}

#[test]
fn open_random_opens_the_only_site() {
    let mut perc = Percolation::new(1);
    assert!(perc.open_random());
    assert!(perc.is_open(0, 0));
    assert!(perc.percolates());
    assert!(!perc.open_random());
}

#[test]
fn random_openings_end_in_percolation() {
    let n = 6;
    let mut perc = Percolation::new(n);
    let mut opened = 0;
    while !perc.percolates() {
        if perc.open_random() {
            opened += 1;
        }
    }
    let mut count = 0;
    for i in 0..n {
        for j in 0..n {
            if perc.is_open(i, j) {
                count += 1;
            }
        }
    }
    assert_eq!(count, opened);
    assert!(opened >= n && opened <= n * n);
}
