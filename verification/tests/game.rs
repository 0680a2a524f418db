use codingame_snakebyte::game::{
    buildable, fits_turn, rebuild_world, Cell, FastWorld, InitialState, PowerSource, SnakeBot, Terrain, TurnState,
    WorldState, DIR_DOWN, DIR_LEFT, DIR_RIGHT, DIR_UP, MAX_CELLS, MAX_FOOD, MAX_SNAKES, MAX_SNAKE_LEN, OCC_EMPTY,
    OCC_POWER,
};

fn grid(width: usize, height: usize, walls: &[(usize, usize)]) -> Vec<Terrain> {
    let mut t = vec![Terrain::Empty; width * height];
    for &(x, y) in walls {
        t[y * width + x] = Terrain::Wall;
    }
    t
}

fn initial(width: usize, height: usize, mine: Vec<i32>, theirs: Vec<i32>) -> InitialState {
    InitialState {
        my_id: 0,
        width,
        height,
        terrain: grid(width, height, &[]),
        my_snakebot_ids: mine,
        opp_snakebot_ids: theirs,
    }
}

fn snake(id: i32, cells: &[(u8, u8)]) -> SnakeBot {
    SnakeBot { snakebot_id: id, body: cells.iter().map(|&(x, y)| Cell { x, y }).collect() }
}

fn power(x: u8, y: u8) -> PowerSource {
    PowerSource { pos: Cell { x, y } }
}

fn fast(width: usize, height: usize, mine: Vec<i32>, theirs: Vec<i32>, turn: &TurnState) -> FastWorld {
    let world = WorldState::from_initial(initial(width, height, mine, theirs));
    FastWorld::from_world(&world, turn)
}

#[test]
fn from_initial_pads_tables_and_cuts_ids_to_bytes() {
    let mut init = initial(4, 3, vec![10, 300], vec![20]);
    init.terrain = grid(4, 3, &[(1, 1)]);
    let world = WorldState::from_initial(init);
    assert_eq!(world.terrain.len(), MAX_CELLS);
    assert_eq!(world.terrain[5], Terrain::Wall);
    assert_eq!(world.terrain[12], Terrain::Empty);
    assert!(world.occupancy.iter().all(|&o| o == OCC_EMPTY));
    assert_eq!(world.my_snakebot_ids.len(), MAX_SNAKES);
    assert_eq!(world.my_snakebot_ids[0], 10);
    assert_eq!(world.my_snakebot_ids[1], 44);
    assert_eq!(world.my_snakebot_ids[2], 0);
    assert_eq!(world.my_snakebot_count, 2);
    assert_eq!(world.opp_snakebot_count, 1);
}

#[test]
fn apply_turn_and_render_ascii() {
    let mut init = initial(4, 3, vec![0], vec![1]);
    init.terrain = grid(4, 3, &[(1, 1)]);
    let mut world = WorldState::from_initial(init);
    let turn = TurnState {
        power_sources: vec![power(3, 0)],
        snakebots: vec![snake(0, &[(0, 0), (0, 1)]), snake(1, &[(3, 2)])],
    };
    world.apply_turn(&turn);
    assert_eq!(world.render_ascii(), "M..*\nM#..\n...S");
    assert_eq!(world.occupancy[3], OCC_POWER);
    assert_eq!(world.occupancy[4], 0);
    assert_eq!(world.occupancy[11], 1);
}

#[test]
fn apply_turn_forgets_earlier_turns() {
    let mut world = WorldState::from_initial(initial(3, 1, vec![0], vec![]));
    world.apply_turn(&TurnState { power_sources: vec![power(0, 0)], snakebots: vec![snake(0, &[(2, 0)])] });
    world.apply_turn(&TurnState { power_sources: vec![], snakebots: vec![snake(0, &[(1, 0)])] });
    assert_eq!(world.render_ascii(), ".M.");
    assert_eq!(world.occupancy[0], OCC_EMPTY);
}

#[test]
fn later_snake_wins_a_shared_cell_and_snakes_cover_power() {
    let mut world = WorldState::from_initial(initial(3, 1, vec![], vec![]));
    world.apply_turn(&TurnState {
        power_sources: vec![power(1, 0)],
        snakebots: vec![snake(4, &[(0, 0), (1, 0)]), snake(7, &[(1, 0)])],
    });
    assert_eq!(world.occupancy[0], 4);
    assert_eq!(world.occupancy[1], 7);
    assert_eq!(world.occupancy[2], OCC_EMPTY);
}

#[test]
fn render_of_an_empty_grid() {
    let world = WorldState::from_initial(initial(0, 0, vec![], vec![]));
    assert_eq!(world.render_ascii(), "");
    let world = WorldState::from_initial(initial(2, 2, vec![], vec![]));
    assert_eq!(world.render_ascii(), "..\n..");
}

#[test]
fn neighbors_stay_in_place_at_the_border_and_step_back() {
    let turn = TurnState { power_sources: vec![], snakebots: vec![] };
    let f = fast(3, 2, vec![], vec![], &turn);
    assert_eq!(f.size, 6);
    // corner (0, 0)
    assert_eq!(f.neighbors[0], [0, 1, 3, 0]);
    // (1, 1)
    assert_eq!(f.neighbors[4], [1, 5, 4, 3]);
    // cells past the grid
    assert_eq!(f.neighbors[6], [0, 0, 0, 0]);
    for c in 0..6usize {
        for d in 0..4usize {
            let n = f.neighbors[c][d] as usize;
            if n != c {
                assert_eq!(f.neighbors[n][(d + 2) % 4] as usize, c);
            }
        }
    }
}

#[test]
fn from_world_sorts_snakes_into_mine_and_theirs() {
    let turn = TurnState {
        power_sources: vec![power(2, 0)],
        snakebots: vec![snake(0, &[(0, 0)]), snake(1, &[(4, 0), (4, 1)]), snake(2, &[(0, 2)])],
    };
    let f = fast(5, 3, vec![0, 2], vec![1, 3], &turn);
    assert_eq!(f.snake_count, 3);
    assert_eq!(f.my_snakebot_count, 2);
    assert_eq!(f.my_snakebot_ids[0], 0);
    assert_eq!(f.my_snakebot_ids[1], 2);
    assert_eq!(f.opp_snakebot_count, 1);
    assert_eq!(f.opp_snakebot_ids[0], 1);
    // the slot past the listed ids keeps the world's value
    assert_eq!(f.opp_snakebot_ids[1], 3);
    assert_eq!(f.snakes[1].len, 2);
    assert_eq!(f.snakes[1].body[0], 4);
    assert_eq!(f.snakes[1].body[1], 9);
    assert_eq!(f.snakes[3].len, 0);
    assert_eq!(f.power_count, 1);
    assert_eq!(f.power[0], 2);
    assert_eq!(f.occupancy[2], OCC_POWER);
    assert_eq!(f.occupancy[9], 1);
    assert!(f.is_free(1));
    assert!(f.is_free(2));
    assert!(!f.is_free(4));
    assert!(f.is_snake(4));
    assert!(!f.is_wall(4));
}

#[test]
fn bfs_gives_shortest_distances_around_snakes() {
    // a 3 by 3 grid with a snake across the middle row but its right cell
    let turn = TurnState {
        power_sources: vec![],
        snakebots: vec![snake(5, &[(0, 1), (1, 1)])],
    };
    let f = fast(3, 3, vec![], vec![5], &turn);
    let mut dist = vec![-1i16; MAX_CELLS];
    f.bfs(0, &mut dist);
    assert_eq!(dist[0], 0);
    assert_eq!(dist[1], 1);
    assert_eq!(dist[2], 2);
    assert_eq!(dist[5], 3);
    assert_eq!(dist[8], 4);
    assert_eq!(dist[7], 5);
    assert_eq!(dist[6], 6);
    // the snake's cells are not entered
    assert_eq!(dist[3], -1);
    assert_eq!(dist[4], -1);
    // nor the cells past the grid
    assert_eq!(dist[9], -1);
}

#[test]
fn bfs_keeps_cells_already_marked() {
    let turn = TurnState { power_sources: vec![], snakebots: vec![] };
    let f = fast(4, 1, vec![], vec![], &turn);
    let mut dist = vec![-1i16; MAX_CELLS];
    dist[2] = 9;
    f.bfs(0, &mut dist);
    assert_eq!(dist[0], 0);
    assert_eq!(dist[1], 1);
    assert_eq!(dist[2], 9);
    assert_eq!(dist[3], -1);
}

#[test]
fn choose_move_goes_for_power_first() {
    let turn = TurnState {
        power_sources: vec![power(3, 0)],
        snakebots: vec![snake(0, &[(2, 0), (2, 1)])],
    };
    let f = fast(5, 3, vec![0], vec![], &turn);
    assert_eq!(f.choose_move(0) as usize, DIR_RIGHT);
}

#[test]
fn choose_move_prefers_more_room() {
    let turn = TurnState { power_sources: vec![], snakebots: vec![snake(0, &[(2, 0)])] };
    let f = fast(6, 1, vec![0], vec![], &turn);
    assert_eq!(f.choose_move(0) as usize, DIR_RIGHT);
    let turn = TurnState { power_sources: vec![], snakebots: vec![snake(0, &[(3, 0)])] };
    let f = fast(6, 1, vec![0], vec![], &turn);
    assert_eq!(f.choose_move(0) as usize, DIR_LEFT);
}

#[test]
fn choose_move_takes_the_first_of_equal_moves_and_up_when_trapped() {
    let turn = TurnState { power_sources: vec![], snakebots: vec![snake(0, &[(1, 1)])] };
    let f = fast(3, 3, vec![0], vec![], &turn);
    assert_eq!(f.choose_move(0) as usize, DIR_UP);
    let turn = TurnState { power_sources: vec![], snakebots: vec![snake(0, &[(0, 0)])] };
    let f = fast(1, 1, vec![0], vec![], &turn);
    assert_eq!(f.choose_move(0) as usize, DIR_UP);
}

#[test]
fn moves_to_text_lists_my_living_snakes() {
    let turn = TurnState {
        power_sources: vec![],
        snakebots: vec![snake(0, &[(0, 0)]), snake(1, &[(4, 0)]), snake(2, &[]), snake(3, &[(2, 2)])],
    };
    let f = fast(5, 3, vec![0, 1, 2], vec![3], &turn);
    assert_eq!(f.moves_to_text(), "0 RIGHT;1 DOWN");
    let none = fast(5, 3, vec![], vec![], &turn);
    assert_eq!(none.moves_to_text(), "");
}

#[test]
fn simulate_turn_moves_a_snake() {
    let turn = TurnState { power_sources: vec![], snakebots: vec![snake(0, &[(1, 0), (0, 0)])] };
    let mut f = fast(4, 1, vec![0], vec![], &turn);
    let mut moves = [0u8; MAX_SNAKES];
    moves[0] = DIR_RIGHT as u8;
    f.simulate_turn(&moves);
    assert_eq!(f.snakes[0].len, 2);
    assert_eq!(f.snakes[0].body[0], 2);
    assert_eq!(f.snakes[0].body[1], 1);
    assert_eq!(f.occupancy[0], OCC_EMPTY);
    assert_eq!(f.occupancy[1], 0);
    assert_eq!(f.occupancy[2], 0);
}

#[test]
fn simulate_turn_kills_head_on_collisions_and_snakes_that_run_into_things() {
    let turn = TurnState {
        power_sources: vec![power(4, 2)],
        snakebots: vec![
            snake(0, &[(0, 0)]),
            snake(1, &[(2, 0)]),
            snake(2, &[(3, 2)]),
            snake(3, &[(0, 2), (1, 2)]),
        ],
    };
    let mut f = fast(5, 3, vec![0, 2], vec![1, 3], &turn);
    let mut moves = [0u8; MAX_SNAKES];
    moves[0] = DIR_RIGHT as u8; // onto (1, 0)
    moves[1] = DIR_LEFT as u8; // onto (1, 0) as well
    moves[2] = DIR_RIGHT as u8; // onto the power source
    moves[3] = DIR_UP as u8; // onto (0, 1), free
    f.simulate_turn(&moves);
    assert_eq!(f.snakes[0].len, 0);
    assert_eq!(f.snakes[1].len, 0);
    assert_eq!(f.snakes[2].len, 0);
    assert_eq!(f.snakes[3].len, 2);
    assert_eq!(f.snakes[3].body[0], 5);
    assert_eq!(f.snakes[3].body[1], 10);
    assert_eq!(f.occupancy[5], 3);
    // the tails left their cells; dead snakes' cells stay marked
    assert_eq!(f.occupancy[11], OCC_EMPTY);
    assert_eq!(f.occupancy[0], OCC_EMPTY);
    assert_eq!(f.occupancy[14], OCC_POWER);
}

#[test]
fn simulate_turn_kills_a_snake_that_stays_at_the_border() {
    let turn = TurnState { power_sources: vec![], snakebots: vec![snake(0, &[(0, 0), (1, 0)])] };
    let mut f = fast(3, 1, vec![0], vec![], &turn);
    let mut moves = [0u8; MAX_SNAKES];
    moves[0] = DIR_DOWN as u8;
    f.simulate_turn(&moves);
    assert_eq!(f.snakes[0].len, 0);
}

#[test]
fn clear_occupancy_empties_every_cell() {
    let turn = TurnState { power_sources: vec![power(0, 0)], snakebots: vec![snake(0, &[(1, 0)])] };
    let mut f = fast(3, 1, vec![0], vec![], &turn);
    f.clear_occupancy();
    assert!(f.occupancy.iter().all(|&o| o == OCC_EMPTY));
}

#[test]
fn rebuild_world_shows_the_chosen_turn() {
    let base = WorldState::from_initial(initial(3, 1, vec![0], vec![]));
    let turns = vec![
        TurnState { power_sources: vec![], snakebots: vec![snake(0, &[(0, 0)])] },
        TurnState { power_sources: vec![power(0, 0)], snakebots: vec![snake(0, &[(1, 0)])] },
        TurnState { power_sources: vec![], snakebots: vec![snake(0, &[(2, 0)])] },
    ];
    assert_eq!(rebuild_world(&base, &turns, 0).render_ascii(), "M..");
    assert_eq!(rebuild_world(&base, &turns, 1).render_ascii(), "*M.");
    assert_eq!(rebuild_world(&base, &turns, 2).render_ascii(), "..M");
    assert_eq!(rebuild_world(&base, &turns, usize::MAX).render_ascii(), "..M");
    assert_eq!(rebuild_world(&base, &[], 5).render_ascii(), "...");
    let copy = base.copy();
    assert_eq!(copy.width, 3);
    assert_eq!(copy.occupancy, base.occupancy);
}

#[test]
fn simulate_turn_leaves_bodiless_snakes_without_body() {
    let turn = TurnState {
        power_sources: vec![],
        snakebots: vec![snake(0, &[]), snake(1, &[(2, 0), (3, 0)])],
    };
    let mut f = fast(5, 1, vec![0], vec![1], &turn);
    let mut moves = [0u8; MAX_SNAKES];
    moves[1] = DIR_LEFT as u8;
    f.simulate_turn(&moves);
    assert_eq!(f.snakes[0].len, 0);
    assert_eq!(f.snakes[1].len, 2);
    assert_eq!(f.snakes[1].body[0], 1);
    assert_eq!(f.snakes[1].body[1], 2);
    assert_eq!(f.occupancy[3], OCC_EMPTY);
}

#[test]
fn simulate_turn_marks_each_surviving_head_with_its_id() {
    let turn = TurnState {
        power_sources: vec![power(0, 1)],
        snakebots: vec![snake(7, &[(1, 1), (2, 1)]), snake(9, &[(3, 0), (4, 0)])],
    };
    let mut f = fast(5, 3, vec![7], vec![9], &turn);
    let mut moves = [0u8; MAX_SNAKES];
    moves[0] = DIR_LEFT as u8; // onto the power source: dies
    moves[1] = DIR_DOWN as u8; // onto (3, 1)
    f.simulate_turn(&moves);
    assert_eq!(f.snakes[0].len, 0);
    assert_eq!(f.snakes[1].len, 2);
    assert_eq!(f.occupancy[f.snakes[1].body[0] as usize], 9);
}

#[test]
fn simulate_turn_keeps_surviving_heads_apart() {
    let turn = TurnState {
        power_sources: vec![],
        snakebots: vec![snake(0, &[(0, 0)]), snake(1, &[(2, 0)]), snake(2, &[(4, 0)])],
    };
    let mut f = fast(5, 2, vec![0, 1, 2], vec![], &turn);
    let mut moves = [0u8; MAX_SNAKES];
    moves[0] = DIR_DOWN as u8;
    moves[1] = DIR_DOWN as u8;
    moves[2] = DIR_DOWN as u8;
    f.simulate_turn(&moves);
    let heads: Vec<u16> = (0..3).map(|i| f.snakes[i].body[0]).collect();
    assert_eq!(heads, vec![5, 7, 9]);
    for i in 0..3 {
        assert_eq!(f.occupancy[heads[i] as usize], i as i16);
    }
}

#[test]
fn fits_turn_checks_every_named_cell() {
    let inside = TurnState { power_sources: vec![power(3, 2)], snakebots: vec![snake(0, &[(0, 0), (43, 23)])] };
    assert!(fits_turn(&inside, 44));
    let far_power = TurnState { power_sources: vec![power(0, 24)], snakebots: vec![] };
    assert!(!fits_turn(&far_power, 44));
    let far_body = TurnState { power_sources: vec![], snakebots: vec![snake(0, &[(0, 0), (255, 255)])] };
    assert!(!fits_turn(&far_body, 44));
    assert!(!fits_turn(&far_body, usize::MAX));
    assert!(fits_turn(&TurnState { power_sources: vec![], snakebots: vec![] }, usize::MAX));
}

#[test]
fn buildable_tells_what_from_world_takes() {
    let world = WorldState::from_initial(initial(5, 3, vec![0], vec![1]));
    let turn = TurnState { power_sources: vec![power(4, 2)], snakebots: vec![snake(0, &[(0, 0)])] };
    assert!(buildable(&world, &turn));
    let too_many_powers = TurnState { power_sources: vec![power(0, 0); MAX_FOOD + 1], snakebots: vec![] };
    assert!(!buildable(&world, &too_many_powers));
    let too_long = TurnState { power_sources: vec![], snakebots: vec![snake(0, &vec![(0, 0); MAX_SNAKE_LEN + 1])] };
    assert!(!buildable(&world, &too_long));
    let outside = TurnState { power_sources: vec![], snakebots: vec![snake(0, &[(0, 255)])] };
    assert!(!buildable(&world, &outside));
    let big = WorldState::from_initial(initial(45, 24, vec![0], vec![]));
    assert!(!buildable(&big, &turn));
}

#[test]
fn buildable_with_more_of_my_ids_than_slots() {
    let mine: Vec<i32> = (0..20).collect();
    let world = WorldState::from_initial(initial(5, 3, mine, vec![]));
    assert_eq!(world.my_snakebot_count, 20);
    let listed = TurnState { power_sources: vec![], snakebots: vec![snake(3, &[(0, 0)]), snake(15, &[(1, 0)])] };
    assert!(buildable(&world, &listed));
    let f = FastWorld::from_world(&world, &listed);
    assert_eq!(f.my_snakebot_count, 2);
    assert_eq!(f.my_snakebot_ids[0], 3);
    assert_eq!(f.my_snakebot_ids[1], 15);
    let unlisted = TurnState { power_sources: vec![], snakebots: vec![snake(18, &[(0, 0)])] };
    assert!(!buildable(&world, &unlisted));
}

#[test]
fn ids_in_range_checks_my_slots() {
    let turn = TurnState { power_sources: vec![], snakebots: vec![snake(0, &[(0, 0)])] };
    let mut f = fast(3, 1, vec![0], vec![], &turn);
    assert!(f.ids_in_range());
    f.my_snakebot_ids[0] = MAX_SNAKES as u8;
    assert!(!f.ids_in_range());
}

#[test]
fn simulate_turn_keeps_bodies_apart_and_marked() {
    let turn = TurnState {
        power_sources: vec![],
        snakebots: vec![snake(4, &[(2, 1), (1, 1), (0, 1)]), snake(5, &[(2, 2), (1, 2), (0, 2)])],
    };
    let mut f = fast(6, 4, vec![4], vec![5], &turn);
    let mut moves = [0u8; MAX_SNAKES];
    moves[0] = DIR_RIGHT as u8;
    moves[1] = DIR_RIGHT as u8;
    f.simulate_turn(&moves);
    let a: Vec<u16> = f.snakes[0].body[..f.snakes[0].len].to_vec();
    let b: Vec<u16> = f.snakes[1].body[..f.snakes[1].len].to_vec();
    assert_eq!(a, vec![9, 8, 7]);
    assert_eq!(b, vec![15, 14, 13]);
    assert!(a.iter().all(|c| !b.contains(c)));
    assert!(a.iter().all(|&c| f.occupancy[c as usize] == 4));
    assert!(b.iter().all(|&c| f.occupancy[c as usize] == 5));
    assert_eq!(f.occupancy[6], OCC_EMPTY);
    assert_eq!(f.occupancy[12], OCC_EMPTY);
}

#[test]
fn simulate_turn_keeps_bodies_on_distinct_grid_cells() {
    let turn = TurnState {
        power_sources: vec![power(0, 0)],
        snakebots: vec![snake(1, &[(1, 1), (1, 2), (2, 2), (3, 2)]), snake(2, &[(3, 0), (4, 0)])],
    };
    let mut f = fast(5, 3, vec![1], vec![2], &turn);
    let mut moves = [0u8; MAX_SNAKES];
    moves[0] = DIR_RIGHT as u8;
    moves[1] = DIR_DOWN as u8;
    f.simulate_turn(&moves);
    for k in 0..2 {
        let body = &f.snakes[k].body[..f.snakes[k].len];
        assert_eq!(body.len(), if k == 0 { 4 } else { 2 });
        for (a, &c) in body.iter().enumerate() {
            assert!((c as usize) < 15);
            assert_eq!(f.occupancy[c as usize], f.snakes[k].id as i16);
            assert!(body[a + 1..].iter().all(|&d| d != c));
        }
    }
    assert_eq!(&f.snakes[0].body[..4], &[7, 6, 11, 12]);
    assert_eq!(&f.snakes[1].body[..2], &[8, 3]);
}
