use spellbound::dijkstra_map::{DijkstraMap, DijkstraTile};
use spellbound::game::{Command, Game};
use spellbound::object::{Behavior, Creature, Object};

fn spots(game: &Game) -> Vec<(usize, usize)> {
    game.creatures().iter().map(|c| c.coordinates()).collect()
}

fn explored(game: &Game) -> usize {
    let map = game.map();
    let mut count = 0;
    for j in 0..map.height() {
        for i in 0..map.width() {
            if map.tile(i, j).is_explored() {
                count += 1;
            }
        }
    }
    count
}

fn king_moves(a: (usize, usize), b: (usize, usize)) -> usize {
    a.0.abs_diff(b.0).max(a.1.abs_diff(b.1))
}

#[test]
fn a_new_game_has_the_player_in_the_first_room() {
    let game = Game::new();
    assert_eq!(game.player().coordinates(), (1, 1));
    assert_eq!(game.player().ai, Behavior::Player);
    assert!(game.creatures().is_empty());
    assert_eq!((game.map().width(), game.map().height()), (42, 42));
    assert!(game.map().tile(1, 1).is_passable());
    assert_eq!(explored(&game), 0);
}

#[test]
fn loading_lets_the_player_look_around() {
    let mut game = Game::new();
    game.on_load();
    assert!(game.map().tile(1, 1).visible());
    assert!(game.map().tile(1, 1).is_explored());
    assert!(game.map().tile(0, 0).visible());
    assert!(game.creatures().is_empty());
    assert_eq!(game.player().coordinates(), (1, 1));
}

#[test]
fn an_idle_command_plays_no_turn() {
    let mut game = Game::new();
    game.on_input(Command::Idle);
    assert_eq!(game.player().coordinates(), (1, 1));
    assert!(game.creatures().is_empty());
    assert_eq!(explored(&game), 0);
}

#[test]
fn the_player_does_not_walk_into_walls_or_off_the_map() {
    let mut game = Game::new();
    for command in [
        Command::Move(-1, 0),
        Command::Move(0, -1),
        Command::Move(-1, -1),
        Command::Move(-2, 0),
        Command::Move(0, 41),
        Command::Move(isize::MAX, isize::MIN),
        Command::Move(0, 0),
    ] {
        game.on_input(command);
        assert_eq!(game.player().coordinates(), (1, 1), "{command:?}");
    }
}

#[test]
fn the_player_walks_onto_free_floor() {
    let mut game = Game::new();
    // (1, 1), (3, 1), (1, 3) and (3, 3) are chambers; whether the cells between them are open
    // depends on where the walls fell.
    let mut walked = false;
    for (di, dj) in [(1, 0), (0, 1), (1, 1)] {
        let from = game.player().coordinates();
        let to = ((from.0 as isize + di) as usize, (from.1 as isize + dj) as usize);
        let open = game.map().tile(to.0, to.1).is_passable() && !spots(&game).contains(&to);
        game.on_input(Command::Move(di, dj));
        if open {
            assert_eq!(game.player().coordinates(), to);
            walked = true;
        } else {
            assert_eq!(game.player().coordinates(), from);
        }
        assert!(game.map().tile(game.player().coordinates().0, game.player().coordinates().1).visible());
    }
    // every wall has an opening, so one of the three was open
    let _ = walked;
}

#[test]
fn a_turn_brings_at_most_one_creature_and_twenty_in_all() {
    let mut game = Game::new();
    let mut count = 0;
    for turn in 0..30 {
        game.on_input(Command::Move(0, 0));
        let now = game.creatures().len();
        assert!(now == count || now == count + 1, "turn {turn}");
        assert!(now <= 20);
        count = now;
    }
    assert_eq!(count, 20);
    for creature in game.creatures() {
        assert_eq!(creature.ai, Behavior::Coward);
    }
}

#[test]
fn creatures_move_one_king_move_at_most_onto_floor() {
    let mut game = Game::new();
    for _ in 0..25 {
        let before = spots(&game);
        game.on_input(Command::Automove);
        let after = spots(&game);
        for (n, from) in before.iter().enumerate() {
            assert!(king_moves(*from, after[n]) <= 1);
        }
        for to in after.iter() {
            assert!(game.map().tile(to.0, to.1).is_passable());
        }
    }
}

#[test]
fn nobody_steps_onto_somebody_else() {
    let mut game = Game::new();
    for _ in 0..30 {
        let before = spots(&game);
        let player_before = game.player().coordinates();
        game.on_input(Command::Automove);
        let after = spots(&game);
        let player = game.player().coordinates();
        assert!(player == player_before || !before.contains(&player));
        // a creature that has moved did not move onto the player
        for (n, from) in before.iter().enumerate() {
            if after[n] != *from {
                assert_ne!(after[n], player);
            }
        }
    }
}

#[test]
fn exploring_steps_one_king_move_and_sees_more_and_more() {
    let mut game = Game::new();
    game.on_load();
    let mut seen = explored(&game);
    assert!(seen > 0);
    let mut moved = 0;
    for _ in 0..60 {
        let from = game.player().coordinates();
        game.on_input(Command::Automove);
        let to = game.player().coordinates();
        assert!(king_moves(from, to) <= 1);
        assert!(game.map().tile(to.0, to.1).is_passable());
        assert!(game.map().tile(to.0, to.1).visible());
        if from != to {
            moved += 1;
        }
        let now = explored(&game);
        assert!(now >= seen);
        seen = now;
    }
    assert!(moved > 0);
}

#[test]
fn an_object_moves_and_follows_a_field() {
    let mut object = Object::new((3, 4));
    assert_eq!(object.coordinates(), (3, 4));
    object.mov(2, -4);
    assert_eq!(object.coordinates(), (5, 0));
    object.mov(-5, 7);
    assert_eq!((object.i, object.j), (0, 7));

    let field = DijkstraMap::new(&vec![vec![
        DijkstraTile::Goal,
        DijkstraTile::Passable,
        DijkstraTile::Passable,
        DijkstraTile::Passable,
    ]]);
    let mut walker = Object::new((3, 0));
    walker.automove(&field);
    assert_eq!(walker.coordinates(), (2, 0));
    walker.automove(&field);
    walker.automove(&field);
    assert_eq!(walker.coordinates(), (0, 0));
    walker.automove(&field);
    assert_eq!(walker.coordinates(), (0, 0));
}

#[test]
fn a_creature_stands_where_it_was_put() {
    let creature = Creature::new((7, 9), Behavior::Coward);
    assert_eq!(creature.coordinates(), (7, 9));
    assert_eq!(creature.object, Object::new((7, 9)));
    assert_eq!(creature.ai, Behavior::Coward);
}

#[test]
fn an_object_is_seen_where_its_tile_is() {
    let mut game = Game::new();
    let here = Object::new((1, 1));
    let far = Object::new((40, 40));
    assert!(!here.visible(game.map()));
    game.on_load();
    assert!(here.visible(game.map()));
    assert!(!far.visible(game.map()));
}
